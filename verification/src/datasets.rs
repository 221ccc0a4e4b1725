//! Vector files and datasets.
//!
//! A `.fvecs` file is a sequence of records, each a dimension followed by that many
//! single-precision numbers; an `.ivecs` file is the same with integers, and its rows may
//! differ in length. All words are 32 bits wide, least significant byte first. Numbers are
//! kept as their bit patterns.

use vstd::arithmetic::power2::{lemma2_to64, lemma_pow2_pos, lemma_pow2_unfold, pow2};
use vstd::prelude::*;

use crate::prng::{is_permutation, shuffle, shuffled, shuffled_is_permutation};
use crate::scored::ItemId;

verus! {

/// What is wrong with a vector file.
#[derive(Clone, Copy, Debug, PartialEq, Eq, Structural)]
pub enum DataError {
    /// A dimension of zero, or of 100,000 or more.
    ImplausibleDim,
    /// Two records differ in dimension.
    Ragged,
    /// The file ends inside a record.
    Truncated,
    /// The file holds no vector.
    NoVectors,
    /// A row of 10,000,000 or more entries.
    ImplausibleRow,
}

/// The 32-bit word at `pos`.
pub open spec fn word(bytes: Seq<u8>, pos: int) -> u32 {
    (bytes[pos] + 0x100 * bytes[pos + 1] + 0x1_0000 * bytes[pos + 2] + 0x100_0000 * bytes[pos
        + 3]) as u32
}

/// The `n` words from `pos` on.
pub open spec fn words(bytes: Seq<u8>, pos: int, n: nat) -> Seq<u32> {
    Seq::new(n, |i: int| word(bytes, pos + 4 * i))
}

/// The contents of a list of rows.
pub open spec fn rows_of(v: Seq<Vec<u32>>) -> Seq<Seq<u32>> {
    Seq::new(v.len(), |i: int| v[i]@)
}

/// Reads `.fvecs` records from `pos` on. Fewer than four bytes at the end are no record.
pub open spec fn fvecs_from(
    bytes: Seq<u8>,
    pos: int,
    seen: Seq<Seq<u32>>,
    max: nat,
) -> Result<Seq<Seq<u32>>, DataError>
    decreases bytes.len() - pos,
{
    if pos < 0 || pos + 4 > bytes.len() {
        Ok(seen)
    } else {
        let d = word(bytes, pos);
        if d == 0 || d >= 100_000 {
            Err(DataError::ImplausibleDim)
        } else if seen.len() > 0 && seen[0].len() != d {
            Err(DataError::Ragged)
        } else if pos + 4 + 4 * d > bytes.len() {
            Err(DataError::Truncated)
        } else {
            let now = seen.push(words(bytes, pos + 4, d as nat));
            if max != 0 && now.len() >= max {
                Ok(now)
            } else {
                fvecs_from(bytes, pos + 4 + 4 * d, now, max)
            }
        }
    }
}

/// The vectors of an `.fvecs` file, at most `max` of them unless `max` is zero.
pub open spec fn fvecs_rows(bytes: Seq<u8>, max: nat) -> Result<Seq<Seq<u32>>, DataError> {
    match fvecs_from(bytes, 0, Seq::empty(), max) {
        Ok(rows) => if rows.len() == 0 {
            Err(DataError::NoVectors)
        } else {
            Ok(rows)
        },
        Err(e) => Err(e),
    }
}

fn word_at(bytes: &[u8], pos: usize) -> (w: u32)
    requires
        pos + 4 <= bytes.len(),
    ensures
        w == word(bytes@, pos as int),
{
    bytes[pos] as u32 + 0x100 * bytes[pos + 1] as u32 + 0x1_0000 * bytes[pos + 2] as u32
        + 0x100_0000 * bytes[pos + 3] as u32
}

fn words_at(bytes: &[u8], pos: usize, n: usize) -> (row: Vec<u32>)
    requires
        pos + 4 * n <= bytes.len(),
    ensures
        row@ == words(bytes@, pos as int, n as nat),
{
    let mut row: Vec<u32> = Vec::with_capacity(n);
    let mut i: usize = 0;
    while i < n
        invariant
            i <= n,
            pos + 4 * n <= bytes.len(),
            row@ == words(bytes@, pos as int, i as nat),
        decreases n - i,
    {
        row.push(word_at(bytes, pos + 4 * i));
        i += 1;
        assert(row@ =~= words(bytes@, pos as int, i as nat));
    }
    row
}

/// Reads the vectors of an `.fvecs` file, at most `max` of them unless `max` is zero.
pub fn parse_fvecs(bytes: &[u8], max: usize) -> (r: Result<Vec<Vec<u32>>, DataError>)
    ensures
        match r {
            Ok(rows) => fvecs_rows(bytes@, max as nat) == Ok::<Seq<Seq<u32>>, DataError>(
                rows_of(rows@),
            ),
            Err(e) => fvecs_rows(bytes@, max as nat) == Err::<Seq<Seq<u32>>, DataError>(e),
        },
{
    let mut rows: Vec<Vec<u32>> = Vec::new();
    let mut pos: usize = 0;
    let n: usize = bytes.len();
    assert(rows_of(rows@) =~= Seq::empty());
    while n - pos >= 4
        invariant
            pos <= n == bytes.len(),
            fvecs_from(bytes@, 0, Seq::empty(), max as nat) == fvecs_from(
                bytes@,
                pos as int,
                rows_of(rows@),
                max as nat,
            ),
        decreases n - pos,
    {
        let d: u32 = word_at(bytes, pos);
        if d == 0 || d >= 100_000 {
            return Err(DataError::ImplausibleDim);
        }
        if rows.len() > 0 {
            assert(rows_of(rows@)[0] == rows@[0]@);
            if rows[0].len() != d as usize {
                return Err(DataError::Ragged);
            }
        }
        let size: usize = 4 * d as usize;
        if n - pos - 4 < size {
            return Err(DataError::Truncated);
        }
        let ghost before = rows_of(rows@);
        let row: Vec<u32> = words_at(bytes, pos + 4, d as usize);
        rows.push(row);
        assert(rows_of(rows@) =~= before.push(words(bytes@, pos + 4, d as nat)));
        if max != 0 && rows.len() >= max {
            return Ok(rows);
        }
        pos = pos + 4 + size;
    }
    if rows.len() == 0 {
        return Err(DataError::NoVectors);
    }
    Ok(rows)
}

/// The four bytes of a word.
pub open spec fn word_bytes(w: u32) -> Seq<u8> {
    seq![
        (w % 0x100) as u8,
        ((w / 0x100) % 0x100) as u8,
        ((w / 0x1_0000) % 0x100) as u8,
        ((w / 0x100_0000) % 0x100) as u8,
    ]
}

/// A list of words as bytes.
pub open spec fn words_bytes(row: Seq<u32>) -> Seq<u8>
    decreases row.len(),
{
    if row.len() == 0 {
        Seq::empty()
    } else {
        words_bytes(row.drop_last()) + word_bytes(row.last())
    }
}

/// Rows as an `.fvecs` file.
pub open spec fn fvecs_bytes(rows: Seq<Seq<u32>>) -> Seq<u8>
    decreases rows.len(),
{
    if rows.len() == 0 {
        Seq::empty()
    } else {
        fvecs_bytes(rows.drop_last()) + word_bytes(rows.last().len() as u32) + words_bytes(
            rows.last(),
        )
    }
}

fn push_word(out: &mut Vec<u8>, w: u32)
    ensures
        final(out)@ == old(out)@ + word_bytes(w),
{
    out.push((w % 0x100) as u8);
    out.push(((w / 0x100) % 0x100) as u8);
    out.push(((w / 0x1_0000) % 0x100) as u8);
    out.push(((w / 0x100_0000) % 0x100) as u8);
    assert(out@ =~= old(out)@ + word_bytes(w));
}

/// Writes rows as an `.fvecs` file.
pub fn write_fvecs(rows: &Vec<Vec<u32>>) -> (out: Vec<u8>)
    requires
        forall|i: int| 0 <= i < rows.len() ==> (#[trigger] rows@[i]).len() <= u32::MAX,
    ensures
        out@ == fvecs_bytes(rows_of(rows@)),
{
    let mut out: Vec<u8> = Vec::new();
    let ghost all = rows_of(rows@);
    let mut i: usize = 0;
    assert(all.take(0) =~= Seq::empty());
    while i < rows.len()
        invariant
            i <= rows.len(),
            all == rows_of(rows@),
            forall|q: int| 0 <= q < rows.len() ==> (#[trigger] rows@[q]).len() <= u32::MAX,
            out@ == fvecs_bytes(all.take(i as int)),
        decreases rows.len() - i,
    {
        let ghost row = rows@[i as int]@;
        assert(rows@[i as int].len() <= u32::MAX);
        let ghost start = out@;
        push_word(&mut out, rows[i].len() as u32);
        let ghost head = out@;
        let mut j: usize = 0;
        assert(row.take(0) =~= Seq::empty());
        assert(out@ =~= head + words_bytes(row.take(0)));
        while j < rows[i].len()
            invariant
                i < rows.len(),
                row == rows@[i as int]@,
                j <= row.len(),
                out@ == head + words_bytes(row.take(j as int)),
            decreases row.len() - j,
        {
            push_word(&mut out, rows[i][j]);
            j += 1;
            proof {
                let t = row.take(j as int);
                assert(t.drop_last() =~= row.take(j - 1));
                assert(out@ =~= head + words_bytes(t));
            }
        }
        i += 1;
        proof {
            assert(row.take(j as int) =~= row);
            let t = all.take(i as int);
            assert(t.drop_last() =~= all.take(i - 1));
            assert(t.last() == row);
            assert(out@ =~= fvecs_bytes(t));
        }
    }
    assert(all.take(i as int) =~= all);
    out
}

proof fn lemma_word_round_trip(w: u32)
    ensures
        word(word_bytes(w), 0) == w,
{
}

proof fn lemma_word_shift(a: Seq<u8>, b: Seq<u8>, pos: int)
    requires
        0 <= pos,
        pos + 4 <= b.len(),
    ensures
        word(a + b, a.len() + pos) == word(b, pos),
{
    let s = a + b;
    assert(s[a.len() + pos] == b[pos]);
    assert(s[a.len() + pos + 1] == b[pos + 1]);
    assert(s[a.len() + pos + 2] == b[pos + 2]);
    assert(s[a.len() + pos + 3] == b[pos + 3]);
}

proof fn lemma_word_front(a: Seq<u8>, b: Seq<u8>, pos: int)
    requires
        0 <= pos,
        pos + 4 <= a.len(),
    ensures
        word(a + b, pos) == word(a, pos),
{
    let s = a + b;
    assert(s[pos] == a[pos]);
    assert(s[pos + 1] == a[pos + 1]);
    assert(s[pos + 2] == a[pos + 2]);
    assert(s[pos + 3] == a[pos + 3]);
}

proof fn lemma_words_round_trip(row: Seq<u32>)
    ensures
        words_bytes(row).len() == 4 * row.len(),
        words(words_bytes(row), 0, row.len()) == row,
    decreases row.len(),
{
    if row.len() > 0 {
        let front = row.drop_last();
        lemma_words_round_trip(front);
        let a = words_bytes(front);
        let b = word_bytes(row.last());
        lemma_word_round_trip(row.last());
        assert forall|i: int| 0 <= i < row.len() implies words(a + b, 0, row.len())[i] == row[i] by {
            if i < front.len() {
                lemma_word_front(a, b, 4 * i);
                assert(words(a, 0, front.len())[i] == front[i]);
            } else {
                lemma_word_shift(a, b, 0);
            }
        }
        assert(words(words_bytes(row), 0, row.len()) =~= row);
    } else {
        assert(words(words_bytes(row), 0, 0) =~= row);
    }
}

/// Every row has the dimension of the first, and a plausible one.
pub open spec fn is_rectangle(rows: Seq<Seq<u32>>) -> bool {
    &&& rows.len() > 0
    &&& 0 < rows[0].len() < 100_000
    &&& forall|i: int| 0 <= i < rows.len() ==> (#[trigger] rows[i]).len() == rows[0].len()
}

/// One record in front of the rest of a file.
proof fn lemma_read_record(
    front: Seq<u8>,
    row: Seq<u32>,
    tail: Seq<u8>,
    seen: Seq<Seq<u32>>,
)
    requires
        0 < row.len() < 100_000,
        seen.len() > 0 ==> seen[0].len() == row.len(),
    ensures
        ({
            let file = front + word_bytes(row.len() as u32) + words_bytes(row) + tail;
            fvecs_from(file, front.len() as int, seen, 0) == fvecs_from(
                file,
                (front.len() + 4 + 4 * row.len()) as int,
                seen.push(row),
                0,
            )
        }),
{
    let head = word_bytes(row.len() as u32);
    let body = words_bytes(row);
    let file = front + head + body + tail;
    lemma_words_round_trip(row);
    lemma_word_round_trip(row.len() as u32);
    let rest = head + (body + tail);
    assert(file =~= front + rest);
    lemma_word_shift(front, rest, 0);
    lemma_word_front(head, body + tail, 0);
    let pos = (front.len() + 4) as int;
    let lead = front + head;
    assert(file =~= lead + (body + tail));
    assert forall|i: int| 0 <= i < row.len() implies words(file, pos, row.len())[i] == row[i] by {
        lemma_word_shift(lead, body + tail, 4 * i);
        lemma_word_front(body, tail, 4 * i);
        assert(words(body, 0, row.len())[i] == row[i]);
    }
    assert(words(file, pos, row.len()) =~= row);
}

proof fn lemma_read_rows(rows: Seq<Seq<u32>>, k: int)
    requires
        is_rectangle(rows),
        0 <= k <= rows.len(),
    ensures
        fvecs_from(fvecs_bytes(rows), 0, Seq::empty(), 0) == fvecs_from(
            fvecs_bytes(rows),
            fvecs_bytes(rows.take(k)).len() as int,
            rows.take(k),
            0,
        ),
        exists|tail: Seq<u8>| fvecs_bytes(rows) == #[trigger] (fvecs_bytes(rows.take(k)) + tail),
    decreases k,
{
    if k == 0 {
        assert(rows.take(0) =~= Seq::empty());
        assert(fvecs_bytes(rows) =~= fvecs_bytes(rows.take(0)) + fvecs_bytes(rows));
    } else {
        lemma_read_rows(rows, k - 1);
        let seen = rows.take(k - 1);
        let now = rows.take(k);
        let row = rows[k - 1];
        assert(now.drop_last() =~= seen);
        assert(now.last() == row);
        assert(now =~= seen.push(row));
        lemma_prefix_bytes(rows, k);
        let tail = choose|tail: Seq<u8>| fvecs_bytes(rows) == #[trigger] (fvecs_bytes(now) + tail);
        let front = fvecs_bytes(seen);
        lemma_words_round_trip(row);
        lemma_read_record(front, row, tail, seen);
        assert(fvecs_bytes(rows) =~= front + word_bytes(row.len() as u32) + words_bytes(row)
            + tail);
    }
}

proof fn lemma_prefix_bytes(rows: Seq<Seq<u32>>, k: int)
    requires
        0 <= k <= rows.len(),
    ensures
        exists|tail: Seq<u8>| fvecs_bytes(rows) == #[trigger] (fvecs_bytes(rows.take(k)) + tail),
    decreases rows.len() - k,
{
    if k == rows.len() {
        assert(rows.take(k) =~= rows);
        assert(fvecs_bytes(rows) =~= fvecs_bytes(rows.take(k)) + Seq::empty());
    } else {
        lemma_prefix_bytes(rows, k + 1);
        let next = rows.take(k + 1);
        let tail = choose|tail: Seq<u8>| fvecs_bytes(rows) == #[trigger] (fvecs_bytes(next) + tail);
        assert(next.drop_last() =~= rows.take(k));
        let more = word_bytes(next.last().len() as u32) + words_bytes(next.last()) + tail;
        assert(fvecs_bytes(rows) =~= fvecs_bytes(rows.take(k)) + more);
    }
}

/// What is written as an `.fvecs` file is read back.
pub proof fn fvecs_read_back_what_was_written(rows: Seq<Seq<u32>>)
    requires
        is_rectangle(rows),
    ensures
        fvecs_rows(fvecs_bytes(rows), 0) == Ok::<Seq<Seq<u32>>, DataError>(rows),
{
    lemma_read_rows(rows, rows.len() as int);
    assert(rows.take(rows.len() as int) =~= rows);
}

/// Reads `.ivecs` rows from `pos` on. The file ends where a row ends: bytes that are left over
/// are a row cut short, in its length or in its ids.
pub open spec fn ivecs_from(
    bytes: Seq<u8>,
    pos: int,
    seen: Seq<Seq<ItemId>>,
) -> Result<Seq<Seq<ItemId>>, DataError>
    decreases bytes.len() - pos,
{
    if pos < 0 || pos >= bytes.len() {
        Ok(seen)
    } else if pos + 4 > bytes.len() {
        Err(DataError::Truncated)
    } else {
        let n = word(bytes, pos);
        if n >= 10_000_000 {
            Err(DataError::ImplausibleRow)
        } else if pos + 4 + 4 * n > bytes.len() {
            Err(DataError::Truncated)
        } else {
            ivecs_from(
                bytes,
                pos + 4 + 4 * n,
                seen.push(ids_in(words(bytes, pos + 4, n as nat))),
            )
        }
    }
}

/// A word as a signed number.
pub open spec fn signed(w: u32) -> ItemId {
    if w < 0x8000_0000 {
        w as ItemId
    } else {
        (w - 0x1_0000_0000) as ItemId
    }
}

/// Words as ids.
pub open spec fn ids_in(row: Seq<u32>) -> Seq<ItemId> {
    Seq::new(row.len(), |i: int| signed(row[i]))
}

/// The contents of a list of rows.
pub open spec fn id_rows(v: Seq<Vec<ItemId>>) -> Seq<Seq<ItemId>> {
    Seq::new(v.len(), |i: int| v[i]@)
}

fn ids_at(bytes: &[u8], pos: usize, n: usize) -> (row: Vec<ItemId>)
    requires
        pos + 4 * n <= bytes.len(),
    ensures
        row@ == ids_in(words(bytes@, pos as int, n as nat)),
{
    let mut row: Vec<ItemId> = Vec::with_capacity(n);
    let mut i: usize = 0;
    while i < n
        invariant
            i <= n,
            pos + 4 * n <= bytes.len(),
            row@ == ids_in(words(bytes@, pos as int, i as nat)),
        decreases n - i,
    {
        let w: u32 = word_at(bytes, pos + 4 * i);
        let id: ItemId = if w < 0x8000_0000 {
            w as ItemId
        } else {
            w as ItemId - 0x1_0000_0000
        };
        row.push(id);
        i += 1;
        assert(row@ =~= ids_in(words(bytes@, pos as int, i as nat)));
    }
    row
}

/// Reads the rows of an `.ivecs` file. A row cut short is an error.
pub fn load_ivecs(bytes: &[u8]) -> (r: Result<Vec<Vec<ItemId>>, DataError>)
    ensures
        match r {
            Ok(rows) => ivecs_from(bytes@, 0, Seq::empty()) == Ok::<Seq<Seq<ItemId>>, DataError>(
                id_rows(rows@),
            ),
            Err(e) => ivecs_from(bytes@, 0, Seq::empty()) == Err::<Seq<Seq<ItemId>>, DataError>(e),
        },
{
    let mut rows: Vec<Vec<ItemId>> = Vec::new();
    let mut pos: usize = 0;
    let n: usize = bytes.len();
    assert(id_rows(rows@) =~= Seq::empty());
    while n - pos >= 4
        invariant
            pos <= n == bytes.len(),
            ivecs_from(bytes@, 0, Seq::empty()) == ivecs_from(
                bytes@,
                pos as int,
                id_rows(rows@),
            ),
        decreases n - pos,
    {
        let len: u32 = word_at(bytes, pos);
        if len >= 10_000_000 {
            return Err(DataError::ImplausibleRow);
        }
        let size: usize = 4 * len as usize;
        if n - pos - 4 < size {
            return Err(DataError::Truncated);
        }
        let ghost before = id_rows(rows@);
        rows.push(ids_at(bytes, pos + 4, len as usize));
        assert(id_rows(rows@) =~= before.push(ids_in(words(bytes@, pos + 4, len as nat))));
        pos = pos + 4 + size;
    }
    if pos < n {
        return Err(DataError::Truncated);
    }
    Ok(rows)
}

/// The least power of two that is at least `n`; one for zero.
pub open spec fn is_padded_dim(n: nat, p: nat) -> bool {
    &&& is_power_of_two(p)
    &&& n <= p
    &&& p == 1 || p < 2 * n
}

/// `p` is a power of two.
pub open spec fn is_power_of_two(p: nat) -> bool
    decreases p,
{
    p == 1 || (p > 1 && p % 2 == 0 && is_power_of_two(p / 2))
}

/// The least power of two that is at least `n`.
pub fn padded_dim(n: usize) -> (p: usize)
    requires
        n <= usize::MAX / 2,
    ensures
        is_padded_dim(n as nat, p as nat),
{
    let mut p: usize = 1;
    while p < n
        invariant
            n <= usize::MAX / 2,
            is_power_of_two(p as nat),
            1 <= p,
            p == 1 || p < 2 * n,
        decreases 2 * n - p,
    {
        p = 2 * p;
    }
    p
}

/// `row` followed by zeros up to length `p`.
pub open spec fn padded(row: Seq<u32>, p: nat) -> Seq<u32> {
    Seq::new(
        p,
        |i: int|
            if i < row.len() {
                row[i]
            } else {
                0
            },
    )
}

/// Pads every vector with zeros to the next power of two.
pub fn pad_pow2(vectors: &mut Vec<Vec<u32>>, dim: usize) -> (pd: usize)
    requires
        dim <= usize::MAX / 2,
        forall|i: int| 0 <= i < old(vectors)@.len() ==> (#[trigger] old(vectors)@[i]).len() == dim,
    ensures
        is_padded_dim(dim as nat, pd as nat),
        final(vectors)@.len() == old(vectors)@.len(),
        forall|i: int|
            0 <= i < final(vectors)@.len() ==> (#[trigger] final(vectors)@[i])@ == padded(
                old(vectors)@[i]@,
                pd as nat,
            ),
{
    let pd: usize = padded_dim(dim);
    let ghost before = vectors@;
    let n: usize = vectors.len();
    let mut i: usize = 0;
    while i < n
        invariant
            i <= n == vectors@.len(),
            before == old(vectors)@,
            before.len() == n,
            dim <= pd,
            forall|q: int| 0 <= q < n ==> (#[trigger] before[q]).len() == dim,
            forall|q: int|
                0 <= q < i ==> (#[trigger] vectors@[q])@ == padded(before[q]@, pd as nat),
            forall|q: int| i <= q < n ==> #[trigger] vectors@[q] == before[q],
        decreases n - i,
    {
        let mut row: Vec<u32> = copy_row(&vectors[i]);
        assert(before[i as int].len() == dim);
        while row.len() < pd
            invariant
                before[i as int].len() == dim <= row.len() <= pd,
                row@ == padded(before[i as int]@, row@.len()),
            decreases pd - row.len(),
        {
            row.push(0);
            assert(row@ =~= padded(before[i as int]@, row@.len()));
        }
        vectors[i] = row;
        i += 1;
    }
    pd
}

/// A copy of a row.
pub fn copy_row(row: &Vec<u32>) -> (r: Vec<u32>)
    ensures
        r@ == row@,
        r@ == padded(row@, row@.len()),
{
    let mut r: Vec<u32> = Vec::with_capacity(row.len());
    let mut i: usize = 0;
    while i < row.len()
        invariant
            i <= row.len(),
            r@ == row@.take(i as int),
        decreases row.len() - i,
    {
        r.push(row[i]);
        i += 1;
        assert(r@ =~= row@.take(i as int));
    }
    assert(r@ =~= row@);
    assert(r@ =~= padded(row@, row@.len()));
    r
}

/// A dataset in memory.
pub struct Dataset {
    pub name: String,
    pub dim: usize,
    pub vectors: Vec<Vec<u32>>,
}

/// Every row followed by zeros up to length `p`.
pub open spec fn padded_rows(rows: Seq<Seq<u32>>, p: nat) -> Seq<Seq<u32>> {
    Seq::new(rows.len(), |i: int| padded(rows[i], p))
}

/// The rows are as long as the first, which is shorter than 100,000.
spec fn is_even(rows: Seq<Seq<u32>>) -> bool {
    forall|i: int|
        0 <= i < rows.len() ==> (#[trigger] rows[i]).len() == rows[0].len() && rows[i].len()
            < 100_000
}

proof fn lemma_read_is_even(bytes: Seq<u8>, pos: int, seen: Seq<Seq<u32>>, max: nat)
    requires
        is_even(seen),
    ensures
        fvecs_from(bytes, pos, seen, max) matches Ok(rows) ==> is_even(rows),
    decreases bytes.len() - pos,
{
    if !(pos < 0 || pos + 4 > bytes.len()) {
        let d = word(bytes, pos);
        let now = seen.push(words(bytes, pos + 4, d as nat));
        if d != 0 && d < 100_000 && (seen.len() == 0 || seen[0].len() == d) && pos + 4 + 4 * d
            <= bytes.len() {
            assert(is_even(now)) by {
                assert forall|i: int| 0 <= i < now.len() implies (#[trigger] now[i]).len()
                    == now[0].len() && now[i].len() < 100_000 by {
                    if i < seen.len() {
                        assert(now[i] == seen[i]);
                    }
                    if seen.len() > 0 {
                        assert(now[0] == seen[0]);
                    }
                }
            }
            lemma_read_is_even(bytes, pos + 4 + 4 * d, now, max);
        }
    }
}

/// The dataset that an `.fvecs` file holds, at most `max` vectors of it unless `max` is zero.
/// Its vectors are padded with zeros to the next power of two.
pub fn load_fvecs(bytes: &[u8], max: usize, name: String) -> (r: Result<Dataset, DataError>)
    ensures
        match r {
            Ok(d) => {
                &&& fvecs_rows(bytes@, max as nat) is Ok
                &&& d.name == name
                &&& is_padded_dim(
                    fvecs_rows(bytes@, max as nat)->Ok_0[0].len(),
                    d.dim as nat,
                )
                &&& rows_of(d.vectors@) == padded_rows(
                    fvecs_rows(bytes@, max as nat)->Ok_0,
                    d.dim as nat,
                )
            },
            Err(e) => fvecs_rows(bytes@, max as nat) == Err::<Seq<Seq<u32>>, DataError>(e),
        },
{
    match parse_fvecs(bytes, max) {
        Err(e) => Err(e),
        Ok(rows) => {
            let mut vectors: Vec<Vec<u32>> = rows;
            let ghost before = rows_of(vectors@);
            proof {
                lemma_read_is_even(bytes@, 0, Seq::empty(), max as nat);
                assert forall|i: int| 0 <= i < vectors@.len() implies (#[trigger] vectors@[i]).len()
                    == vectors@[0].len() && vectors@[i].len() < 100_000 by {
                    assert(before[i].len() == before[0].len());
                }
                assert(before.len() > 0);
                assert(before[0].len() == vectors@[0].len());
            }
            let width: usize = vectors[0].len();
            let dim: usize = pad_pow2(&mut vectors, width);
            assert(rows_of(vectors@) =~= padded_rows(before, dim as nat));
            Ok(Dataset { name, dim, vectors })
        },
    }
}

/// How many queries are held out: at most half of the vectors.
pub open spec fn held_out(n: nat, n_queries: nat) -> nat {
    if n_queries < n / 2 {
        n_queries
    } else {
        n / 2
    }
}

impl Dataset {
    pub fn len(&self) -> (n: usize)
        ensures
            n == self.vectors.len(),
    {
        self.vectors.len()
    }

    pub fn is_empty(&self) -> (r: bool)
        ensures
            r == (self.vectors.len() == 0),
    {
        self.vectors.len() == 0
    }

    /// Splits off held-out queries: the first of the shuffled vectors are the queries, the
    /// others the database. The same seed always gives the same split.
    pub fn split_queries(&self, n_queries: usize, seed: u64) -> (r: (Vec<Vec<u32>>, Vec<Vec<u32>>))
        ensures
            ({
                let n = self.vectors@.len();
                let q = held_out(n, n_queries as nat);
                let order = shuffled(n, seed);
                let (db, queries) = (r.0, r.1);
                &&& queries.len() == q
                &&& db.len() == n - q
                &&& forall|i: int|
                    0 <= i < q ==> (#[trigger] queries@[i])@ == self.vectors@[order[i] as int]@
                &&& forall|i: int|
                    0 <= i < n - q ==> (#[trigger] db@[i])@ == self.vectors@[order[q
                        + i] as int]@
            }),
    {
        let n: usize = self.vectors.len();
        let q: usize = if n_queries < n / 2 {
            n_queries
        } else {
            n / 2
        };
        let order: Vec<usize> = shuffle(n, seed);
        let mut queries: Vec<Vec<u32>> = Vec::with_capacity(q);
        let mut db: Vec<Vec<u32>> = Vec::with_capacity(n - q);
        let mut i: usize = 0;
        while i < n
            invariant
                i <= n == self.vectors.len(),
                q <= n,
                is_permutation(order@, n as nat),
                queries.len() == if i < q {
                    i
                } else {
                    q
                },
                db.len() == if i < q {
                    0
                } else {
                    i - q
                },
                forall|k: int|
                    0 <= k < queries.len() ==> (#[trigger] queries@[k])@
                        == self.vectors@[order@[k] as int]@,
                forall|k: int|
                    0 <= k < db.len() ==> (#[trigger] db@[k])@ == self.vectors@[order@[q
                        + k] as int]@,
            decreases n - i,
        {
            assert(order@[i as int] < n);
            let row: Vec<u32> = copy_row(&self.vectors[order[i]]);
            if i < q {
                queries.push(row);
            } else {
                db.push(row);
            }
            i += 1;
        }
        (db, queries)
    }
}

/// No vector is both a query and in the database, and each is one of the two.
pub proof fn the_split_is_a_partition(n: nat, n_queries: nat, seed: u64, v: usize)
    requires
        n <= usize::MAX,
        v < n,
    ensures
        ({
            let q = held_out(n, n_queries) as int;
            let order = shuffled(n, seed);
            order.take(q).contains(v) <==> !order.skip(q).contains(v)
        }),
{
    let q = held_out(n, n_queries) as int;
    let order = shuffled(n, seed);
    shuffled_is_permutation(n, seed);
    lemma_permutation_covers(order, n, v);
    let i = choose|i: int| 0 <= i < order.len() && order[i] == v;
    if i < q {
        assert(order.take(q)[i] == v);
        if order.skip(q).contains(v) {
            let j = choose|j: int| 0 <= j < order.skip(q).len() && order.skip(q)[j] == v;
            assert(order[q + j] == order[i]);
        }
    } else {
        assert(order.skip(q)[i - q] == v);
        if order.take(q).contains(v) {
            let j = choose|j: int| 0 <= j < q && order.take(q)[j] == v;
            assert(order[j] == order[i]);
        }
    }
}

/// A permutation reaches every number.
proof fn lemma_permutation_covers(s: Seq<usize>, n: nat, v: usize)
    requires
        is_permutation(s, n),
        v < n,
    ensures
        s.contains(v),
{
    if !s.contains(v) {
        s.unique_seq_to_set();
        let all = vstd::set_lib::set_int_range(0, n as int);
        vstd::set_lib::lemma_int_range(0, n as int);
        let f = |x: usize| x as int;
        let img = s.to_set().map(f);
        vstd::seq_lib::seq_to_set_is_finite(s);
        assert forall|a: usize, b: usize| #[trigger] f(a) == #[trigger] f(b) implies a == b by {
        }
        vstd::set_lib::lemma_map_size(s.to_set(), img, f);
        assert(img.subset_of(all.remove(v as int))) by {
            assert forall|x: int| img.contains(x) implies all.remove(v as int).contains(x) by {
                let a = choose|a: usize| s.to_set().contains(a) && f(a) == x;
                let k = choose|k: int| 0 <= k < s.len() && s[k] == a;
                assert(s[k] < n);
            }
        }
        vstd::set_lib::lemma_len_subset(img, all.remove(v as int));
    }
}

/// Powers of two are the powers of two.
pub proof fn powers_of_two_are_powers(p: nat)
    ensures
        is_power_of_two(p) <==> exists|e: nat| p == #[trigger] pow2(e),
    decreases p,
{
    lemma2_to64();
    if p <= 1 {
        if p == 1 {
            assert(pow2(0) == 1);
        } else if exists|e: nat| p == #[trigger] pow2(e) {
            let e = choose|e: nat| p == #[trigger] pow2(e);
            lemma_pow2_pos(e);
        }
    } else {
        powers_of_two_are_powers(p / 2);
        if is_power_of_two(p) {
            let e = choose|e: nat| p / 2 == #[trigger] pow2(e);
            lemma_pow2_unfold(e + 1);
            assert(pow2(e + 1) == p);
        }
        if exists|e: nat| p == #[trigger] pow2(e) {
            let e = choose|e: nat| p == #[trigger] pow2(e);
            if e > 0 {
                lemma_pow2_unfold(e);
                assert(pow2((e - 1) as nat) == p / 2);
            }
        }
    }
}

// ---- What files promise ----

/// Words are stored lowest byte first.
pub proof fn words_are_little_endian(bytes: Seq<u8>, pos: int)
    requires
        0 <= pos,
        pos + 4 <= bytes.len(),
    ensures
        word(bytes, pos) as int % 256 == bytes[pos],
        (word(bytes, pos) as int / 256) % 256 == bytes[pos + 1],
        (word(bytes, pos) as int / 65536) % 256 == bytes[pos + 2],
        word(bytes, pos) as int / 16777216 == bytes[pos + 3],
{
}

/// An id is the word in two's complement.
pub proof fn ids_are_signed_words(row: Seq<u32>, i: int)
    requires
        0 <= i < row.len(),
    ensures
        ids_in(row).len() == row.len(),
        -0x8000_0000 <= ids_in(row)[i] < 0x8000_0000,
        (ids_in(row)[i] - row[i]) % 0x1_0000_0000 == 0,
{
}

/// Padding keeps a vector as it is and adds zeros only, up to less than twice its length.
pub proof fn padding_adds_zeros_only(row: Seq<u32>, p: nat, i: int)
    requires
        is_padded_dim(row.len(), p),
        0 <= i < p,
    ensures
        padded(row, p).len() == p,
        i < row.len() ==> padded(row, p)[i] == row[i],
        i >= row.len() ==> padded(row, p)[i] == 0,
        p >= row.len(),
        row.len() > 0 ==> p < 2 * row.len(),
        exists|e: nat| p == #[trigger] pow2(e),
{
    powers_of_two_are_powers(p);
}

/// At most half of the vectors are held out, and as many as asked for where that leaves half.
pub proof fn at_most_half_is_held_out(n: nat, n_queries: nat)
    ensures
        2 * held_out(n, n_queries) <= n,
        held_out(n, n_queries) <= n_queries,
        2 * n_queries <= n ==> held_out(n, n_queries) == n_queries,
        2 * n_queries > n ==> 2 * held_out(n, n_queries) + 1 >= n,
{
}

/// Reading only adds to what was read.
proof fn lemma_reading_extends(bytes: Seq<u8>, pos: int, seen: Seq<Seq<u32>>, max: nat)
    ensures
        fvecs_from(bytes, pos, seen, max) matches Ok(rows) ==> rows.len() >= seen.len()
            && rows.take(seen.len() as int) == seen,
    decreases bytes.len() - pos,
{
    if pos < 0 || pos + 4 > bytes.len() {
        assert(seen.take(seen.len() as int) =~= seen);
    } else {
        let d = word(bytes, pos);
        let now = seen.push(words(bytes, pos + 4, d as nat));
        assert(now.take(seen.len() as int) =~= seen);
        if d != 0 && d < 100_000 && pos + 4 + 4 * d <= bytes.len() {
            lemma_reading_extends(bytes, pos + 4 + 4 * d, now, max);
            if let Ok(rows) = fvecs_from(bytes, pos + 4 + 4 * d, now, max) {
                assert(rows.take(seen.len() as int) =~= rows.take(now.len() as int).take(
                    seen.len() as int,
                ));
            }
        }
    }
}

proof fn lemma_reading_stops(bytes: Seq<u8>, pos: int, seen: Seq<Seq<u32>>, max: nat)
    requires
        seen.len() < max,
    ensures
        fvecs_from(bytes, pos, seen, 0) matches Ok(rows) ==> fvecs_from(bytes, pos, seen, max)
            == Ok::<Seq<Seq<u32>>, DataError>(
            if max < rows.len() {
                rows.take(max as int)
            } else {
                rows
            },
        ),
    decreases bytes.len() - pos,
{
    if !(pos < 0 || pos + 4 > bytes.len()) {
        let d = word(bytes, pos);
        let now = seen.push(words(bytes, pos + 4, d as nat));
        if d != 0 && d < 100_000 && pos + 4 + 4 * d <= bytes.len() {
            if now.len() < max {
                lemma_reading_stops(bytes, pos + 4 + 4 * d, now, max);
            } else {
                lemma_reading_extends(bytes, pos + 4 + 4 * d, now, 0);
                if let Ok(rows) = fvecs_from(bytes, pos + 4 + 4 * d, now, 0) {
                    assert(rows.take(max as int) == now);
                    if rows.len() == max {
                        assert(rows =~= rows.take(max as int));
                    }
                }
            }
        }
    }
}

/// A limit keeps the first vectors of a file: all of them if there are no more.
pub proof fn a_limit_keeps_the_first_vectors(bytes: Seq<u8>, max: nat)
    requires
        max > 0,
    ensures
        fvecs_rows(bytes, 0) matches Ok(rows) ==> fvecs_rows(bytes, max) == Ok::<
            Seq<Seq<u32>>,
            DataError,
        >(
            if max < rows.len() {
                rows.take(max as int)
            } else {
                rows
            },
        ),
{
    lemma_reading_stops(bytes, 0, Seq::empty(), max);
}

/// Reading only adds whole rows, and what it has read it keeps.
proof fn lemma_rows_extend(bytes: Seq<u8>, pos: int, seen: Seq<Seq<ItemId>>)
    ensures
        ivecs_from(bytes, pos, seen) matches Ok(rows) ==> rows.len() >= seen.len() && rows.take(
            seen.len() as int,
        ) == seen,
    decreases bytes.len() - pos,
{
    if pos < 0 || pos + 4 > bytes.len() {
        assert(seen.take(seen.len() as int) =~= seen);
    } else {
        let n = word(bytes, pos);
        let now = seen.push(ids_in(words(bytes, pos + 4, n as nat)));
        assert(now.take(seen.len() as int) =~= seen);
        if n < 10_000_000 && pos + 4 + 4 * n <= bytes.len() {
            lemma_rows_extend(bytes, pos + 4 + 4 * n, now);
            if let Ok(rows) = ivecs_from(bytes, pos + 4 + 4 * n, now) {
                assert(rows.take(seen.len() as int) =~= rows.take(now.len() as int).take(
                    seen.len() as int,
                ));
            }
        }
    }
}

proof fn lemma_rows_fill_the_file(bytes: Seq<u8>, pos: int, seen: Seq<Seq<ItemId>>)
    requires
        0 <= pos <= bytes.len(),
    ensures
        ivecs_from(bytes, pos, seen) matches Ok(rows) ==> pos + row_bytes(rows, rows.len() as int)
            - row_bytes(rows, seen.len() as int) == bytes.len(),
    decreases bytes.len() - pos,
{
    if pos + 4 <= bytes.len() {
        let n = word(bytes, pos);
        let now = seen.push(ids_in(words(bytes, pos + 4, n as nat)));
        if n < 10_000_000 && pos + 4 + 4 * n <= bytes.len() {
            lemma_rows_fill_the_file(bytes, pos + 4 + 4 * n, now);
            lemma_rows_extend(bytes, pos + 4 + 4 * n, now);
            if let Ok(rows) = ivecs_from(bytes, pos + 4 + 4 * n, now) {
                assert(rows[seen.len() as int] == rows.take(now.len() as int)[seen.len() as int]);
                assert(rows[seen.len() as int].len() == n);
            }
        }
    }
}

/// What the first `k` rows take in a file: four bytes for their length and four for each entry.
pub open spec fn row_bytes(rows: Seq<Seq<ItemId>>, k: int) -> int
    decreases k,
{
    if k <= 0 {
        0
    } else {
        row_bytes(rows, k - 1) + 4 + 4 * rows[k - 1].len()
    }
}

/// A file of relevant ids that is read without an error is made of its rows and of nothing else:
/// no byte is left over.
pub proof fn a_file_of_ids_is_read_to_its_end(bytes: Seq<u8>)
    ensures
        ivecs_from(bytes, 0, Seq::empty()) matches Ok(rows) ==> row_bytes(rows, rows.len() as int)
            == bytes.len(),
{
    lemma_rows_fill_the_file(bytes, 0, Seq::empty());
}

} // verus!
