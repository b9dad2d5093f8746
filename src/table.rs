//! The Unicode table: entries split on 0xff, UTF-8 sequences found by their lead byte, and
//! the fixed-capacity map they fill.

use vstd::prelude::*;

use crate::header::LoadError;

verus! {

#[verifier::external_type_specification]
#[verifier::external_body]
#[verifier::reject_recursive_types(K)]
#[verifier::reject_recursive_types(V)]
#[verifier::reject_recursive_types(S)]
pub struct ExIndexMap<K, V, S, const N: usize>(heapless::IndexMap<K, V, S, N>);

#[verifier::external_type_specification]
#[verifier::external_body]
#[verifier::reject_recursive_types(H)]
pub struct ExBuildHasherDefault<H>(hash32::BuildHasherDefault<H>);

#[verifier::external_type_specification]
#[verifier::external_body]
pub struct ExAHasher(ahash::AHasher);

/// How many distinct sequences the Unicode lookup map can hold.
pub const TABLE_CAPACITY: usize = 2048;

/// Fixed-capacity map from a UTF-8 sequence, zero-padded to four bytes, to a glyph index.
///
/// Zero padding is unambiguous: a multi-byte sequence never holds a zero byte, and a
/// one-byte sequence is a single byte followed by three zeros.
pub type UnicodeMap = heapless::IndexMap<
    [u8; 4],
    usize,
    hash32::BuildHasherDefault<ahash::AHasher>,
    TABLE_CAPACITY,
>;

/// What a lookup map holds: padded key bytes to glyph index.
pub uninterp spec fn map_contents(m: UnicodeMap) -> Map<Seq<u8>, usize>;

/// Relies on heapless::IndexMap::new: a new map is empty.
#[verifier::external_body]
fn map_new() -> (r: UnicodeMap)
    ensures
        map_contents(r).dom().finite(),
        map_contents(r).dom().is_empty(),
{
    UnicodeMap::new()
}

/// Relies on heapless::IndexMap::insert: it stores the value under the key, replacing an
/// earlier value, and fails, leaving the map as it was, only when the key is new and the
/// map already holds its capacity of entries.
#[verifier::external_body]
fn map_insert(m: &mut UnicodeMap, key: [u8; 4], value: usize) -> (r: Result<
    Option<usize>,
    ([u8; 4], usize),
>)
    ensures
        map_contents(*final(m)).dom().finite(),
        r is Ok <==> (map_contents(*old(m)).contains_key(key@) || map_contents(*old(m)).len()
            < TABLE_CAPACITY),
        r is Ok ==> map_contents(*final(m)) == map_contents(*old(m)).insert(key@, value),
        r is Err ==> map_contents(*final(m)) == map_contents(*old(m)),
{
    m.insert(key, value)
}

/// Relies on heapless::IndexMap::get: the value stored under the key, if there is one.
#[verifier::external_body]
pub(crate) fn map_get(m: &UnicodeMap, key: &[u8; 4]) -> (r: Option<usize>)
    ensures
        r is Some <==> map_contents(*m).contains_key(key@),
        r matches Some(v) ==> v == map_contents(*m)[key@],
{
    m.get(key).copied()
}

/// Length of the UTF-8 sequence announced by its lead byte (by its high nibble).
pub open spec fn utf8_len(b: u8) -> int {
    if 0xc0 <= b < 0xe0 {
        2
    } else if 0xe0 <= b < 0xf0 {
        3
    } else if 0xf0 <= b {
        4
    } else {
        1
    }
}

/// How many of at most `r` bytes from `q` on belong to the current entry (stop at its end).
pub open spec fn cont(t: Seq<u8>, q: int, r: nat) -> nat
    decreases r,
{
    if r == 0 || q < 0 || q >= t.len() || t[q] == 0xff {
        0
    } else {
        1 + cont(t, q + 1, (r - 1) as nat)
    }
}

/// Offset one past the sequence whose lead byte is at `p`.
pub open spec fn seq_end(t: Seq<u8>, p: int) -> int {
    p + 1 + cont(t, p + 1, (utf8_len(t[p]) - 1) as nat)
}

/// `s` padded with zeros to four bytes.
pub open spec fn pad4(s: Seq<u8>) -> Seq<u8> {
    Seq::new(4, |i: int| if i < s.len() { s[i] } else { 0u8 })
}

/// The (key, glyph index) pairs that the table bytes from `p` on record, in order, when
/// the entry at `p` has index `idx`. Entries end at 0xff.
pub open spec fn pairs_from(t: Seq<u8>, p: int, idx: usize) -> Seq<(Seq<u8>, usize)>
    decreases t.len() - p,
    via pairs_from_decreases
{
    if p < 0 || p >= t.len() {
        Seq::empty()
    } else if t[p] == 0xff {
        pairs_from(t, p + 1, (idx + 1) as usize)
    } else {
        seq![(pad4(t.subrange(p, seq_end(t, p))), idx)] + pairs_from(t, seq_end(t, p), idx)
    }
}

proof fn lemma_cont_bound(t: Seq<u8>, q: int, r: nat)
    requires
        0 <= q <= t.len(),
    ensures
        q + cont(t, q, r) <= t.len(),
        cont(t, q, r) <= r,
    decreases r,
{
    if !(r == 0 || q >= t.len() || t[q] == 0xff) {
        lemma_cont_bound(t, q + 1, (r - 1) as nat);
    }
}

/// A sequence ends after its lead byte and within the table.
proof fn lemma_seq_end_bound(t: Seq<u8>, p: int)
    requires
        0 <= p < t.len(),
    ensures
        p < seq_end(t, p) <= t.len(),
        seq_end(t, p) - p <= 4,
{
    lemma_cont_bound(t, p + 1, (utf8_len(t[p]) - 1) as nat);
}

#[via_fn]
proof fn pairs_from_decreases(t: Seq<u8>, p: int, idx: usize) {
    if 0 <= p < t.len() && t[p] != 0xff {
        lemma_seq_end_bound(t, p);
    }
}

/// The map that inserting `ps` in order builds; a later pair wins over an earlier one.
pub open spec fn map_of(ps: Seq<(Seq<u8>, usize)>) -> Map<Seq<u8>, usize>
    decreases ps.len(),
{
    if ps.len() == 0 {
        Map::empty()
    } else {
        map_of(ps.drop_last()).insert(ps.last().0, ps.last().1)
    }
}

/// All pairs that a Unicode table records.
pub open spec fn table_pairs(t: Seq<u8>) -> Seq<(Seq<u8>, usize)> {
    pairs_from(t, 0, 0)
}

/// The lookup map a Unicode table describes.
pub open spec fn table_map(t: Seq<u8>) -> Map<Seq<u8>, usize> {
    map_of(table_pairs(t))
}

proof fn lemma_map_of_finite(ps: Seq<(Seq<u8>, usize)>)
    ensures
        map_of(ps).dom().finite(),
    decreases ps.len(),
{
    if ps.len() > 0 {
        lemma_map_of_finite(ps.drop_last());
    }
}

proof fn lemma_map_of_grows(s: Seq<(Seq<u8>, usize)>, r: Seq<(Seq<u8>, usize)>)
    ensures
        map_of(s).dom().subset_of(map_of(s + r).dom()),
    decreases r.len(),
{
    if r.len() > 0 {
        assert((s + r).drop_last() =~= s + r.drop_last());
        lemma_map_of_grows(s, r.drop_last());
    } else {
        assert(s + r =~= s);
    }
}

/// Where the last pair with key `k` stands in `ps` decides `map_of(ps)[k]`: if every
/// pair with key `k` carries `v`, and one does, the map sends `k` to `v`.
pub proof fn lemma_map_of_value(ps: Seq<(Seq<u8>, usize)>, k: Seq<u8>, v: usize)
    requires
        exists|i: int| 0 <= i < ps.len() && ps[i].0 == k,
        forall|i: int| 0 <= i < ps.len() && ps[i].0 == k ==> ps[i].1 == v,
    ensures
        map_of(ps).contains_key(k),
        map_of(ps)[k] == v,
    decreases ps.len(),
{
    let n = ps.len() - 1;
    if ps[n].0 != k {
        let i = choose|i: int| 0 <= i < ps.len() && ps[i].0 == k;
        assert(ps.drop_last()[i].0 == k);
        assert forall|j: int| 0 <= j < ps.drop_last().len() && ps.drop_last()[j].0 == k implies
            ps.drop_last()[j].1 == v by {
            assert(ps[j] == ps.drop_last()[j]);
        }
        lemma_map_of_value(ps.drop_last(), k, v);
    }
}

fn lead_len(b: u8) -> (r: usize)
    ensures
        r as int == utf8_len(b),
{
    if 0xc0 <= b && b < 0xe0 {
        2
    } else if 0xe0 <= b && b < 0xf0 {
        3
    } else if 0xf0 <= b {
        4
    } else {
        1
    }
}

fn make_key(t: &[u8], p: usize, q: usize) -> (k: [u8; 4])
    requires
        p < q <= t@.len(),
        q - p <= 4,
    ensures
        k@ == pad4(t@.subrange(p as int, q as int)),
{
    let b0 = t[p];
    let b1 = if q - p > 1 { t[p + 1] } else { 0 };
    let b2 = if q - p > 2 { t[p + 2] } else { 0 };
    let b3 = if q - p > 3 { t[p + 3] } else { 0 };
    let k = [b0, b1, b2, b3];
    assert(k@ =~= pad4(t@.subrange(p as int, q as int)));
    k
}

/// Builds the lookup map of a Unicode table: one entry per glyph, in glyph order, each
/// ended by 0xff and made of back-to-back UTF-8 sequences.
pub fn build_table(t: &[u8]) -> (r: Result<UnicodeMap, LoadError>)
    ensures
        r is Ok <==> table_map(t@).len() <= TABLE_CAPACITY,
        r matches Ok(m) ==> map_contents(m) == table_map(t@),
        r matches Err(e) ==> e == LoadError::TableFull,
{
    let mut m = map_new();
    let mut p: usize = 0;
    let mut idx: usize = 0;
    let ghost mut done: Seq<(Seq<u8>, usize)> = Seq::empty();
    proof {
        assert(done + pairs_from(t@, 0, 0) =~= pairs_from(t@, 0, 0));
        lemma_map_of_finite(done);
    }
    while p < t.len()
        invariant
            p <= t@.len(),
            idx <= p,
            done + pairs_from(t@, p as int, idx) == table_pairs(t@),
            map_contents(m) == map_of(done),
            map_contents(m).dom().finite(),
            map_contents(m).len() <= TABLE_CAPACITY,
        decreases t@.len() - p,
    {
        if t[p] == 0xff {
            idx = idx + 1;
            p = p + 1;
        } else {
            let l = lead_len(t[p]);
            let mut q: usize = p + 1;
            let mut r: usize = l - 1;
            while r > 0 && q < t.len() && t[q] != 0xff
                invariant
                    p < q <= t@.len(),
                    r < 4,
                    q - (p + 1) + r == l - 1,
                    cont(t@, p + 1, (l - 1) as nat) == (q - (p + 1)) + cont(t@, q as int, r as nat),
                decreases r,
            {
                q = q + 1;
                r = r - 1;
            }
            assert(q == seq_end(t@, p as int));
            let key = make_key(t, p, q);
            let ghost pair = (key@, idx);
            let ghost rest = pairs_from(t@, q as int, idx);
            assert(pairs_from(t@, p as int, idx) == seq![pair] + rest);
            let res = map_insert(&mut m, key, idx);
            if res.is_err() {
                proof {
                    let all = table_pairs(t@);
                    assert(all =~= done.push(pair) + rest);
                    lemma_map_of_grows(done.push(pair), rest);
                    lemma_map_of_finite(all);
                    assert(done.push(pair).drop_last() =~= done);
                    let before = map_of(done).dom();
                    let after = map_of(done.push(pair)).dom();
                    assert(after == before.insert(key@));
                    vstd::set_lib::lemma_len_subset(after, map_of(all).dom());
                }
                return Err(LoadError::TableFull);
            }
            proof {
                assert(done.push(pair).drop_last() =~= done);
                assert(done + pairs_from(t@, p as int, idx) =~= done.push(pair) + rest);
                done = done.push(pair);
            }
            p = q;
        }
    }
    proof {
        assert(done + pairs_from(t@, p as int, idx) =~= done);
    }
    Ok(m)
}

} // verus!
