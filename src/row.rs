//! Rows of a table, split into key bytes (the primary-key cells, after the
//! table name) and value bytes (the other cells, in column order).
use crate::cell::{cell_bytes, cell_encodable, parse_cell, same_variant, CellType, CellValue, DecodeError};
use crate::schema::Schema;
use vstd::prelude::*;
use vstd::slice::slice_subrange;

verus! {

/// One cell per column of a schema, in column order.
#[derive(Debug, Clone, PartialEq)]
pub struct Row {
    pub cells: Vec<CellType>,
}

impl View for Row {
    type V = Seq<CellValue>;

    open spec fn view(&self) -> Seq<CellValue> {
        Seq::new(self.cells@.len(), |i: int| self.cells@[i]@)
    }
}

/// The wire forms of the cells at `idxs`, in that order.
pub open spec fn cells_bytes(cells: Seq<CellValue>, idxs: Seq<usize>) -> Seq<u8>
    decreases idxs.len(),
{
    if idxs.len() == 0 {
        Seq::empty()
    } else {
        cell_bytes(cells[idxs[0] as int]) + cells_bytes(cells, idxs.drop_first())
    }
}

/// The indices from `lo` up to `n` that are not in `pkey`, ascending.
pub open spec fn non_key_from(pkey: Seq<usize>, lo: nat, n: nat) -> Seq<usize>
    decreases n - lo,
{
    if lo >= n {
        Seq::empty()
    } else if pkey.contains(lo as usize) {
        non_key_from(pkey, lo + 1, n)
    } else {
        seq![lo as usize] + non_key_from(pkey, lo + 1, n)
    }
}

/// The indices below `n` that are not in `pkey`, ascending: the value columns.
pub open spec fn non_key_idxs(pkey: Seq<usize>, n: nat) -> Seq<usize> {
    non_key_from(pkey, 0, n)
}

/// The key bytes of `cells`: the table name, a zero byte, then the primary-key cells.
pub open spec fn key_bytes(schema: &Schema, cells: Seq<CellValue>) -> Seq<u8> {
    schema.table_bytes() + seq![0u8] + cells_bytes(cells, schema.pkey@)
}

/// The value bytes of `cells`: the cells of the other columns, in column order.
pub open spec fn val_bytes(schema: &Schema, cells: Seq<CellValue>) -> Seq<u8> {
    cells_bytes(cells, non_key_idxs(schema.pkey@, schema.cols@.len()))
}

/// Decodes cells from `data` into the slots `idxs` of `cells`, one after the
/// other; gives the cells so far and what remains, or the first error with the
/// cells decoded before it.
pub open spec fn decode_cells(cells: Seq<CellValue>, idxs: Seq<usize>, data: Seq<u8>) -> (Seq<
    CellValue,
>, Result<Seq<u8>, DecodeError>)
    decreases idxs.len(),
{
    if idxs.len() == 0 {
        (cells, Ok(data))
    } else {
        match parse_cell(data) {
            Err(e) => (cells, Err(e)),
            Ok((c, n)) => decode_cells(
                cells.update(idxs[0] as int, c),
                idxs.drop_first(),
                data.skip(n as int),
            ),
        }
    }
}

/// Whether decoding `data` into the slots `idxs` meets, before any error, a
/// cell whose variant is not its column's.
pub open spec fn type_clash(types: Seq<CellValue>, idxs: Seq<usize>, data: Seq<u8>) -> bool
    decreases idxs.len(),
{
    if idxs.len() == 0 {
        false
    } else {
        match parse_cell(data) {
            Err(_) => false,
            Ok((c, n)) => !same_variant(c, types[idxs[0] as int]) || type_clash(
                types,
                idxs.drop_first(),
                data.skip(n as int),
            ),
        }
    }
}

/// Whether the cells at `idxs` have their columns' types and fit the wire format.
pub open spec fn cells_fit(cells: Seq<CellValue>, types: Seq<CellValue>, idxs: Seq<usize>) -> bool {
    forall|i: int|
        0 <= i < idxs.len() ==> idxs[i] < cells.len() && idxs[i] < types.len() && same_variant(
            cells[#[trigger] idxs[i] as int],
            types[idxs[i] as int],
        ) && cell_encodable(cells[idxs[i] as int])
}

/// `cells` with the slots `idxs` taken from `src`.
pub open spec fn put_all(cells: Seq<CellValue>, src: Seq<CellValue>, idxs: Seq<usize>) -> Seq<
    CellValue,
>
    decreases idxs.len(),
{
    if idxs.len() == 0 {
        cells
    } else {
        put_all(cells.update(idxs[0] as int, src[idxs[0] as int]), src, idxs.drop_first())
    }
}

proof fn lemma_non_key_from(pkey: Seq<usize>, lo: nat, n: nat, j: usize)
    requires
        n <= usize::MAX + 1,
    ensures
        non_key_from(pkey, lo, n).contains(j) <==> (lo <= j < n && !pkey.contains(j)),
        forall|i: int|
            0 <= i < non_key_from(pkey, lo, n).len() ==> #[trigger] non_key_from(pkey, lo, n)[i]
                < n,
    decreases n - lo,
{
    if lo < n {
        lemma_non_key_from(pkey, lo + 1, n, j);
        let s = non_key_from(pkey, lo + 1, n);
        if !pkey.contains(lo as usize) {
            let s2 = seq![lo as usize] + s;
            assert(s2[0] == lo as usize);
            assert forall|i: int| 0 <= i < s2.len() implies #[trigger] s2[i] < n by {
                if i > 0 {
                    assert(s2[i] == s[i - 1]);
                }
            }
            if s.contains(j) {
                let k = choose|k: int| 0 <= k < s.len() && s[k] == j;
                assert(s2[k + 1] == j);
            }
            if s2.contains(j) && j != lo as usize {
                let k = choose|k: int| 0 <= k < s2.len() && #[trigger] s2[k] == j;
                assert(s[k - 1] == j);
            }
        }
    }
}

proof fn lemma_decode_cells_of(
    cells: Seq<CellValue>,
    src: Seq<CellValue>,
    types: Seq<CellValue>,
    idxs: Seq<usize>,
    rest: Seq<u8>,
)
    requires
        cells.len() == src.len(),
        cells_fit(src, types, idxs),
    ensures
        decode_cells(cells, idxs, cells_bytes(src, idxs) + rest) == (put_all(cells, src, idxs), Ok::<
            Seq<u8>,
            DecodeError,
        >(rest)),
        !type_clash(types, idxs, cells_bytes(src, idxs) + rest),
    decreases idxs.len(),
{
    if idxs.len() > 0 {
        let j = idxs[0];
        assert(cells_fit(src, types, idxs.drop_first())) by {
            assert forall|i: int| 0 <= i < idxs.drop_first().len() implies idxs.drop_first()[i] < src.len()
                && idxs.drop_first()[i] < types.len() && same_variant(
                src[#[trigger] idxs.drop_first()[i] as int],
                types[idxs.drop_first()[i] as int],
            ) && cell_encodable(src[idxs.drop_first()[i] as int]) by {
                assert(idxs.drop_first()[i] == idxs[i + 1]);
            }
        }
        assert(cells_fit(src, types, idxs) ==> idxs[0] < src.len() && same_variant(
            src[idxs[0] as int],
            types[idxs[0] as int],
        ) && cell_encodable(src[idxs[0] as int]));
        let tail = cells_bytes(src, idxs.drop_first()) + rest;
        crate::cell::lemma_cell_round_trip(src[j as int], tail);
        let data = cells_bytes(src, idxs) + rest;
        assert(data =~= cell_bytes(src[j as int]) + tail);
        assert(data.skip(cell_bytes(src[j as int]).len() as int) =~= tail);
        lemma_decode_cells_of(
            cells.update(j as int, src[j as int]),
            src,
            types,
            idxs.drop_first(),
            rest,
        );
    }
}

proof fn lemma_put_all_len(cells: Seq<CellValue>, src: Seq<CellValue>, idxs: Seq<usize>)
    requires
        forall|i: int| 0 <= i < idxs.len() ==> #[trigger] idxs[i] < cells.len(),
    ensures
        put_all(cells, src, idxs).len() == cells.len(),
    decreases idxs.len(),
{
    if idxs.len() > 0 {
        let t = idxs.drop_first();
        assert forall|i: int| 0 <= i < t.len() implies #[trigger] t[i] < cells.len() by {
            assert(t[i] == idxs[i + 1]);
        }
        assert(idxs[0] < cells.len());
        lemma_put_all_len(cells.update(idxs[0] as int, src[idxs[0] as int]), src, t);
    }
}

proof fn lemma_put_all_at(cells: Seq<CellValue>, src: Seq<CellValue>, idxs: Seq<usize>, k: usize)
    requires
        cells.len() == src.len(),
        forall|i: int| 0 <= i < idxs.len() ==> #[trigger] idxs[i] < cells.len(),
        k < cells.len(),
    ensures
        put_all(cells, src, idxs)[k as int] == if idxs.contains(k) {
            src[k as int]
        } else {
            cells[k as int]
        },
    decreases idxs.len(),
{
    if idxs.len() > 0 {
        let t = idxs.drop_first();
        assert forall|i: int| 0 <= i < t.len() implies #[trigger] t[i] < cells.len() by {
            assert(t[i] == idxs[i + 1]);
        }
        assert(idxs[0] < cells.len());
        let c1 = cells.update(idxs[0] as int, src[idxs[0] as int]);
        lemma_put_all_at(c1, src, t, k);
        if t.contains(k) {
            let m = choose|m: int| 0 <= m < t.len() && t[m] == k;
            assert(idxs[m + 1] == k);
        }
        if idxs.contains(k) && idxs[0] != k {
            let m = choose|m: int| 0 <= m < idxs.len() && idxs[m] == k;
            assert(t[m - 1] == k);
        }
        if idxs[0] == k {
            assert(idxs.contains(k));
        }
    }
}

/// Row round trip: for any schema whose primary key names its columns, and any
/// row that has one cell of the right type per column, decoding its key bytes
/// (after the table prefix) and then its value bytes into a fresh row gives
/// the row back, with nothing left over and no type clash.
pub proof fn law_row_round_trip(schema: &Schema, row: Seq<CellValue>)
    requires
        schema.keys_in_range(),
        schema.cols@.len() <= usize::MAX,
        row.len() == schema.cols@.len(),
        forall|j: int|
            0 <= j < row.len() ==> same_variant(#[trigger] row[j], schema.types()[j])
                && cell_encodable(row[j]),
    ensures
        ({
            let n = schema.cols@.len();
            let vidx = non_key_idxs(schema.pkey@, n);
            let kb = key_bytes(schema, row).skip(schema.table_bytes().len() + 1int);
            let (c1, r1) = decode_cells(schema.default_cells(), schema.pkey@, kb);
            let (c2, r2) = decode_cells(c1, vidx, val_bytes(schema, row));
            &&& r1 == Ok::<Seq<u8>, DecodeError>(Seq::empty())
            &&& r2 == Ok::<Seq<u8>, DecodeError>(Seq::empty())
            &&& c2 == row
            &&& !type_clash(schema.types(), vidx, val_bytes(schema, row))
        }),
{
    let n = schema.cols@.len();
    let types = schema.types();
    let pkey = schema.pkey@;
    let vidx = non_key_idxs(pkey, n);
    let c0 = schema.default_cells();
    let e = Seq::<u8>::empty();
    assert(cells_fit(row, types, pkey));
    assert forall|i: int| 0 <= i < vidx.len() implies #[trigger] vidx[i] < n by {
        lemma_non_key_from(pkey, 0, n, 0);
    }
    assert(cells_fit(row, types, vidx));
    assert forall|i: int| 0 <= i < pkey.len() implies #[trigger] pkey[i] < c0.len() by {
        assert(schema.keys_in_range());
    }
    let kb = key_bytes(schema, row).skip(schema.table_bytes().len() + 1int);
    assert(kb =~= cells_bytes(row, pkey) + e);
    lemma_decode_cells_of(c0, row, types, pkey, e);
    let c1 = put_all(c0, row, pkey);
    assert(val_bytes(schema, row) =~= cells_bytes(row, vidx) + e);
    assert forall|k: int| 0 <= k < n implies put_all(c0, row, pkey)[k] == if pkey.contains(
        k as usize,
    ) {
        row[k]
    } else {
        c0[k]
    } by {
        lemma_put_all_at(c0, row, pkey, k as usize);
    }
    lemma_put_all_len(c0, row, pkey);
    assert forall|i: int| 0 <= i < vidx.len() implies #[trigger] vidx[i] < c1.len() by {
        lemma_non_key_from(pkey, 0, n, 0);
    }
    lemma_decode_cells_of(c1, row, types, vidx, e);
    let c2 = put_all(c1, row, vidx);
    assert forall|k: int| 0 <= k < n implies c2[k] == row[k] by {
        lemma_put_all_at(c1, row, vidx, k as usize);
        lemma_non_key_from(pkey, 0, n, k as usize);
    }
    lemma_put_all_len(c1, row, vidx);
    assert(c2 =~= row);
}

/// Whether `idx` is one of `pkey`.
fn in_key(pkey: &Vec<usize>, idx: usize) -> (r: bool)
    ensures
        r == pkey@.contains(idx),
{
    let mut i: usize = 0;
    while i < pkey.len()
        invariant
            i <= pkey@.len(),
            forall|j: int| 0 <= j < i ==> pkey@[j] != idx,
        decreases pkey@.len() - i,
    {
        if pkey[i] == idx {
            assert(pkey@[i as int] == idx);
            return true;
        }
        i = i + 1;
    }
    false
}

proof fn lemma_cells_bytes_step(cells: Seq<CellValue>, idxs: Seq<usize>, i: int)
    requires
        0 <= i < idxs.len(),
    ensures
        cells_bytes(cells, idxs.skip(i)) == cell_bytes(cells[idxs[i] as int]) + cells_bytes(
            cells,
            idxs.skip(i + 1),
        ),
{
    assert(idxs.skip(i).drop_first() =~= idxs.skip(i + 1));
}

proof fn lemma_decode_cells_step(cells: Seq<CellValue>, idxs: Seq<usize>, i: int, data: Seq<u8>)
    requires
        0 <= i < idxs.len(),
    ensures
        decode_cells(cells, idxs.skip(i), data) == match parse_cell(data) {
            Err(e) => (cells, Err(e)),
            Ok((c, n)) => decode_cells(
                cells.update(idxs[i] as int, c),
                idxs.skip(i + 1),
                data.skip(n as int),
            ),
        },
{
    assert(idxs.skip(i).drop_first() =~= idxs.skip(i + 1));
}

impl Row {
    /// The key bytes of this row: the table name, a zero byte, then each
    /// primary-key cell in key order.
    pub fn encode_key(&self, schema: &Schema) -> (r: Vec<u8>)
        requires
            self.cells@.len() == schema.cols@.len(),
            schema.keys_in_range(),
            cells_fit(self@, schema.types(), schema.pkey@),
        ensures
            r@ == key_bytes(schema, self@),
    {
        let mut key: Vec<u8> = Vec::new();
        key.extend_from_slice(schema.table.as_str().as_bytes());
        key.push(0u8);
        let ghost head = key@;
        let mut i: usize = 0;
        proof {
            assert(schema.pkey@.skip(0) =~= schema.pkey@);
        }
        while i < schema.pkey.len()
            invariant
                self.cells@.len() == schema.cols@.len(),
                schema.keys_in_range(),
                cells_fit(self@, schema.types(), schema.pkey@),
                head == schema.table_bytes() + seq![0u8],
                i <= schema.pkey@.len(),
                key@ + cells_bytes(self@, schema.pkey@.skip(i as int)) == key_bytes(schema, self@),
            decreases schema.pkey@.len() - i,
        {
            let idx = schema.pkey[i];
            assert(idx < schema.cols@.len());
            let cell = &self.cells[idx];
            proof {
                lemma_cells_bytes_step(self@, schema.pkey@, i as int);
                assert(cell_encodable(self@[idx as int]));
            }
            let ghost before = key@;
            cell.encode(&mut key);
            assert(key@ + cells_bytes(self@, schema.pkey@.skip(i + 1)) =~= before + cells_bytes(
                self@,
                schema.pkey@.skip(i as int),
            ));
            i = i + 1;
        }
        assert(schema.pkey@.skip(i as int) =~= Seq::<usize>::empty());
        assert(key@ + Seq::<u8>::empty() =~= key@);
        key
    }

    /// Decodes the primary-key cells of `key`, after its table prefix, into
    /// their slots; other slots are left as they are.
    pub fn decode_key(&mut self, schema: &Schema, key: &[u8]) -> (r: Result<(), DecodeError>)
        requires
            old(self).cells@.len() == schema.cols@.len(),
            schema.keys_in_range(),
            schema.table_bytes().len() + 1 <= key@.len(),
        ensures
            final(self).cells@.len() == old(self).cells@.len(),
            ({
                let (cells, res) = decode_cells(
                    old(self)@,
                    schema.pkey@,
                    key@.skip(schema.table_bytes().len() + 1int),
                );
                &&& final(self)@ == cells
                &&& match (r, res) {
                    (Ok(_), Ok(_)) => true,
                    (Err(e), Err(f)) => e == f,
                    _ => false,
                }
            }),
    {
        let total = key.len();
        let prefix = schema.table.as_str().len() + 1;
        let mut data = slice_subrange(key, prefix, total);
        let mut i: usize = 0;
        proof {
            assert(schema.pkey@.skip(0) =~= schema.pkey@);
        }
        while i < schema.pkey.len()
            invariant
                self.cells@.len() == schema.cols@.len(),
                self.cells@.len() == old(self).cells@.len(),
                schema.keys_in_range(),
                i <= schema.pkey@.len(),
                decode_cells(self@, schema.pkey@.skip(i as int), data@) == decode_cells(
                    old(self)@,
                    schema.pkey@,
                    key@.skip(schema.table_bytes().len() + 1int),
                ),
            decreases schema.pkey@.len() - i,
        {
            let idx = schema.pkey[i];
            assert(idx < schema.cols@.len());
            proof {
                lemma_decode_cells_step(self@, schema.pkey@, i as int, data@);
            }
            match CellType::decode(data) {
                Ok((cell, rest)) => {
                    let ghost before = self@;
                    self.cells.set(idx, cell);
                    assert(self@ =~= before.update(idx as int, cell@));
                    data = rest;
                },
                Err(e) => {
                    return Err(e);
                },
            }
            i = i + 1;
        }
        assert(schema.pkey@.skip(i as int) =~= Seq::<usize>::empty());
        Ok(())
    }

    /// The value bytes of this row: every cell outside the primary key, in
    /// column order.
    pub fn encode_val(&self, schema: &Schema) -> (r: Vec<u8>)
        requires
            self.cells@.len() == schema.cols@.len(),
            cells_fit(self@, schema.types(), non_key_idxs(schema.pkey@, schema.cols@.len())),
        ensures
            r@ == val_bytes(schema, self@),
    {
        let n = schema.cols.len();
        let mut val: Vec<u8> = Vec::new();
        let mut idx: usize = 0;
        while idx < n
            invariant
                n == schema.cols@.len(),
                self.cells@.len() == n,
                cells_fit(self@, schema.types(), non_key_idxs(schema.pkey@, n as nat)),
                idx <= n,
                val@ + cells_bytes(self@, non_key_from(schema.pkey@, idx as nat, n as nat))
                    == val_bytes(schema, self@),
            decreases n - idx,
        {
            let ghost rest = non_key_from(schema.pkey@, (idx + 1) as nat, n as nat);
            if in_key(&schema.pkey, idx) {
                assert(non_key_from(schema.pkey@, idx as nat, n as nat) == rest);
            } else {
                let ghost s = non_key_from(schema.pkey@, idx as nat, n as nat);
                assert(s == seq![idx] + rest);
                assert(s.drop_first() =~= rest);
                proof {
                    lemma_non_key_from(schema.pkey@, 0, n as nat, idx);
                    let all = non_key_idxs(schema.pkey@, n as nat);
                    let k = choose|k: int| 0 <= k < all.len() && all[k] == idx;
                    assert(cells_fit(self@, schema.types(), all));
                    assert(cell_encodable(self@[all[k] as int]));
                }
                let ghost before = val@;
                self.cells[idx].encode(&mut val);
                assert(val@ + cells_bytes(self@, rest) =~= before + cells_bytes(self@, s));
            }
            idx = idx + 1;
        }
        assert(val@ + Seq::<u8>::empty() =~= val@);
        val
    }

    /// Decodes `val` into the slots outside the primary key, in column order;
    /// primary-key slots are left as they are.
    pub fn decode_val(&mut self, schema: &Schema, val: &[u8]) -> (r: Result<(), DecodeError>)
        requires
            old(self).cells@.len() == schema.cols@.len(),
            !type_clash(schema.types(), non_key_idxs(schema.pkey@, schema.cols@.len()), val@),
        ensures
            final(self).cells@.len() == old(self).cells@.len(),
            ({
                let (cells, res) = decode_cells(
                    old(self)@,
                    non_key_idxs(schema.pkey@, schema.cols@.len()),
                    val@,
                );
                &&& final(self)@ == cells
                &&& match (r, res) {
                    (Ok(_), Ok(_)) => true,
                    (Err(e), Err(f)) => e == f,
                    _ => false,
                }
            }),
    {
        let n = schema.cols.len();
        let mut data = val;
        let mut idx: usize = 0;
        while idx < n
            invariant
                n == schema.cols@.len(),
                self.cells@.len() == n,
                self.cells@.len() == old(self).cells@.len(),
                idx <= n,
                !type_clash(schema.types(), non_key_from(schema.pkey@, idx as nat, n as nat), data@),
                decode_cells(self@, non_key_from(schema.pkey@, idx as nat, n as nat), data@)
                    == decode_cells(old(self)@, non_key_idxs(schema.pkey@, n as nat), val@),
            decreases n - idx,
        {
            let ghost rest = non_key_from(schema.pkey@, (idx + 1) as nat, n as nat);
            if in_key(&schema.pkey, idx) {
                assert(non_key_from(schema.pkey@, idx as nat, n as nat) == rest);
            } else {
                let ghost s = non_key_from(schema.pkey@, idx as nat, n as nat);
                assert(s == seq![idx] + rest);
                assert(s.drop_first() =~= rest);
                match CellType::decode(data) {
                    Ok((cell, tail)) => {
                        assert(same_variant(cell@, schema.types()[idx as int]));
                        let ghost before = self@;
                        self.cells.set(idx, cell);
                        assert(self@ =~= before.update(idx as int, cell@));
                        data = tail;
                    },
                    Err(e) => {
                        return Err(e);
                    },
                }
            }
            idx = idx + 1;
        }
        Ok(())
    }
}

} // verus!
