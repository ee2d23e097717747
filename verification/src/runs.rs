//! A channel's values as one sequence: the runs of its data locations, one after the
//! other, and reads of a range of them.
use vstd::prelude::*;
use vstd::utf8::valid_utf8;
use crate::encoding::bytes_at;
use crate::reader::{ends_at, gather, piece_start, run_len, run_pieces, string_pieces};
use crate::segment::DataLocation;

verus! {

/// The number of values of the runs `locs[i..]`.
pub open spec fn values_from(locs: Seq<DataLocation>, i: nat) -> nat
    decreases locs.len() - i,
{
    if i >= locs.len() {
        0
    } else {
        run_len(locs[i as int]) + values_from(locs, i + 1)
    }
}

/// The bytes of the values of run `l`, `size` bytes each.
pub open spec fn run_bytes(data: Seq<u8>, l: DataLocation, size: nat) -> Seq<u8> {
    data.subrange(l.offset as int, l.offset + run_len(l) * size)
}

/// The bytes of the values of the runs `locs[i..]`, one run after the other.
pub open spec fn runs_bytes(data: Seq<u8>, locs: Seq<DataLocation>, i: nat, size: nat) -> Seq<u8>
    decreases locs.len() - i,
{
    if i >= locs.len() {
        Seq::empty()
    } else {
        run_bytes(data, locs[i as int], size) + runs_bytes(data, locs, i + 1, size)
    }
}

/// Whether the data holds every run's values.
pub open spec fn runs_in(data: Seq<u8>, locs: Seq<DataLocation>, size: nat) -> bool {
    forall|j: int| 0 <= j < locs.len() ==> #[trigger] locs[j].offset + run_len(locs[j]) * size <= data.len()
}

/// The runs `locs[i..]` hold `size` bytes for each of their values.
pub proof fn lemma_runs_bytes_len(data: Seq<u8>, locs: Seq<DataLocation>, i: nat, size: nat)
    requires
        runs_in(data, locs, size),
    ensures
        runs_bytes(data, locs, i, size).len() == values_from(locs, i) * size,
    decreases locs.len() - i,
{
    if i < locs.len() {
        lemma_runs_bytes_len(data, locs, i + 1, size);
        let n = run_len(locs[i as int]);
        let v = values_from(locs, i + 1);
        assert(locs[i as int].offset + n * size <= data.len());
        assert((n + v) * size == n * size + v * size) by (nonlinear_arith);
        assert(n * size >= 0) by (nonlinear_arith);
    } else {
        assert(0 * size == 0) by (nonlinear_arith);
    }
}

/// The values `cur .. cur + remaining` of the runs `locs[i..]` are those bytes of the runs
/// one after the other.
pub proof fn lemma_gather_runs(data: Seq<u8>, locs: Seq<DataLocation>, i: nat, cur: nat, remaining: nat, size: nat)
    requires
        size > 0,
        runs_in(data, locs, size),
        cur + remaining <= values_from(locs, i),
    ensures
        gather(data, locs, i, cur, remaining, size)
            == Ok::<Seq<u8>, crate::error::ErrorModel>(runs_bytes(data, locs, i, size).subrange((cur * size) as int, ((cur + remaining) * size) as int)),
    decreases locs.len() - i,
{
    lemma_runs_bytes_len(data, locs, i, size);
    let all = runs_bytes(data, locs, i, size);
    let vf = values_from(locs, i);
    assert(cur * size <= vf * size && (cur + remaining) * size <= vf * size) by (nonlinear_arith)
        requires
            cur + remaining <= vf,
    ;
    assert((cur + remaining) * size == cur * size + remaining * size) by (nonlinear_arith);
    if i >= locs.len() || remaining == 0 {
        assert(all.subrange((cur * size) as int, ((cur + remaining) * size) as int) =~= Seq::<u8>::empty());
    } else {
        let l = locs[i as int];
        let n = run_len(l);
        let rb = run_bytes(data, l, size);
        let rest = runs_bytes(data, locs, i + 1, size);
        lemma_runs_bytes_len(data, locs, i + 1, size);
        assert(l.offset + n * size <= data.len());
        assert(rb.len() == n * size);
        assert(all == rb + rest);
        if cur >= n {
            lemma_gather_runs(data, locs, i + 1, (cur - n) as nat, remaining, size);
            assert(((cur - n) as nat) * size == cur * size - n * size) by (nonlinear_arith)
                requires
                    cur >= n,
            ;
            assert(((cur - n) as nat + remaining) * size == (cur + remaining) * size - n * size) by (nonlinear_arith)
                requires
                    cur >= n,
            ;
            assert(all.subrange((cur * size) as int, ((cur + remaining) * size) as int)
                =~= rest.subrange((((cur - n) as nat) * size) as int, ((((cur - n) as nat) + remaining) * size) as int));
        } else {
            let count: nat = if cur + remaining <= n { remaining } else { (n - cur) as nat };
            let from = l.offset + cur * size;
            assert(cur * size + count * size <= n * size && count * size + ((remaining - count) as nat) * size == remaining * size
                && (cur + count) * size == cur * size + count * size)
                by (nonlinear_arith)
                requires
                    cur + count <= n,
                    count <= remaining,
            ;
            assert(count * size >= 0 && ((remaining - count) as nat) * size >= 0) by (nonlinear_arith);
            lemma_gather_runs(data, locs, i + 1, 0, (remaining - count) as nat, size);
            assert(0 * size == 0) by (nonlinear_arith);
            assert((0 + (remaining - count) as nat) * size == ((remaining - count) as nat) * size);
            let head = data.subrange(from, from + count * size);
            let tail = rest.subrange(0, (((remaining - count) as nat) * size) as int);
            assert(head =~= rb.subrange((cur * size) as int, (cur * size + count * size) as int));
            if cur + remaining <= n {
                assert(tail =~= Seq::<u8>::empty());
                assert(all.subrange((cur * size) as int, ((cur + remaining) * size) as int) =~= head);
            } else {
                assert(cur + count == n);
                assert(cur * size + count * size == n * size);
                assert(all.subrange((cur * size) as int, ((cur + remaining) * size) as int) =~= head + tail);
            }
        }
    }
}

/// The strings of run `l`: its `n` end offsets, then the block of their bytes, string `k`
/// running from the end of string `k - 1` (from the block's start for the first) to its
/// own end.
pub open spec fn run_strings(data: Seq<u8>, l: DataLocation) -> Seq<Seq<u8>> {
    let n = run_len(l);
    let ends = ends_at(data, l.offset as nat, n)->Ok_0;
    let base = l.offset + 4 * n;
    Seq::new(n, |k: int| data.subrange(base + piece_start(ends, k), base + ends[k]))
}

/// Whether run `l` holds its strings: its end offsets and block lie in the data, each
/// string ends at or after its start and within the block, and, where `check`, each is
/// UTF-8.
pub open spec fn run_strings_ok(data: Seq<u8>, l: DataLocation, check: bool) -> bool {
    let n = run_len(l);
    n > 0 ==> {
        let ends = ends_at(data, l.offset as nat, n)->Ok_0;
        &&& ends_at(data, l.offset as nat, n) is Ok
        &&& l.offset + 4 * n + ends[n - 1] <= data.len()
        &&& forall|k: int| 0 <= k < n ==> piece_start(ends, k) <= #[trigger] ends[k] <= ends[n - 1]
        &&& check ==> forall|k: int| 0 <= k < n ==> valid_utf8(#[trigger] run_strings(data, l)[k])
    }
}

/// The strings of the runs `locs[i..]`, one run after the other.
pub open spec fn runs_strings(data: Seq<u8>, locs: Seq<DataLocation>, i: nat) -> Seq<Seq<u8>>
    decreases locs.len() - i,
{
    if i >= locs.len() {
        Seq::empty()
    } else {
        run_strings(data, locs[i as int]) + runs_strings(data, locs, i + 1)
    }
}

/// Whether every run holds its strings.
pub open spec fn strings_in(data: Seq<u8>, locs: Seq<DataLocation>, check: bool) -> bool {
    forall|j: int| 0 <= j < locs.len() ==> run_strings_ok(data, #[trigger] locs[j], check)
}

/// The runs `locs[i..]` hold as many strings as values.
pub proof fn lemma_runs_strings_len(data: Seq<u8>, locs: Seq<DataLocation>, i: nat)
    ensures
        runs_strings(data, locs, i).len() == values_from(locs, i),
    decreases locs.len() - i,
{
    if i < locs.len() {
        lemma_runs_strings_len(data, locs, i + 1);
    }
}

/// The strings `from .. from + count` of a run's block are those of [`run_strings`].
pub proof fn lemma_run_pieces_strings(data: Seq<u8>, l: DataLocation, block: Seq<u8>, from: nat, count: nat, check: bool)
    requires
        run_strings_ok(data, l, check),
        run_len(l) > 0,
        from + count <= run_len(l),
        block == data.subrange(l.offset + 4 * run_len(l), l.offset + 4 * run_len(l) + ends_at(data, l.offset as nat, run_len(l))->Ok_0[run_len(l) - 1]),
    ensures
        run_pieces(block, ends_at(data, l.offset as nat, run_len(l))->Ok_0, from, count, check)
            == Ok::<Seq<Seq<u8>>, crate::error::ErrorModel>(run_strings(data, l).subrange(from as int, (from + count) as int)),
    decreases count,
{
    let n = run_len(l);
    let ends = ends_at(data, l.offset as nat, n)->Ok_0;
    let rs = run_strings(data, l);
    if count == 0 {
        assert(rs.subrange(from as int, from as int) =~= Seq::<Seq<u8>>::empty());
    } else {
        lemma_run_pieces_strings(data, l, block, from, (count - 1) as nat, check);
        let k = from + count - 1;
        let lo = piece_start(ends, k as int);
        let hi = ends[k as int] as nat;
        assert(lo <= ends[k as int] <= ends[n - 1]);
        let base = l.offset + 4 * n;
        assert(block.subrange(lo as int, hi as int) =~= data.subrange(base + lo, base + hi));
        assert(rs[k as int] == data.subrange(base + lo, base + hi));
        assert(rs.subrange(from as int, (from + count - 1) as int).push(rs[k as int])
            =~= rs.subrange(from as int, (from + count) as int));
    }
}

/// The strings `cur .. cur + remaining` of the runs `locs[i..]` are those of the runs one
/// after the other.
pub proof fn lemma_string_pieces_runs(data: Seq<u8>, locs: Seq<DataLocation>, i: nat, cur: nat, remaining: nat, check: bool)
    requires
        strings_in(data, locs, check),
        cur + remaining <= values_from(locs, i),
    ensures
        string_pieces(data, locs, i, cur, remaining, check)
            == Ok::<Seq<Seq<u8>>, crate::error::ErrorModel>(runs_strings(data, locs, i).subrange(cur as int, (cur + remaining) as int)),
    decreases locs.len() - i,
{
    lemma_runs_strings_len(data, locs, i);
    let all = runs_strings(data, locs, i);
    if i >= locs.len() || remaining == 0 {
        assert(all.subrange(cur as int, (cur + remaining) as int) =~= Seq::<Seq<u8>>::empty());
    } else {
        let l = locs[i as int];
        let n = run_len(l);
        let rs = run_strings(data, l);
        let rest = runs_strings(data, locs, i + 1);
        lemma_runs_strings_len(data, locs, i + 1);
        assert(all == rs + rest);
        if cur >= n {
            lemma_string_pieces_runs(data, locs, i + 1, (cur - n) as nat, remaining, check);
            assert(all.subrange(cur as int, (cur + remaining) as int)
                =~= rest.subrange((cur - n) as int, (cur - n + remaining) as int));
        } else {
            let count: nat = if cur + remaining <= n { remaining } else { (n - cur) as nat };
            let off = l.offset as nat;
            assert(run_strings_ok(data, l, check));
            let ends = ends_at(data, off, n)->Ok_0;
            let block = data.subrange((off + 4 * n) as int, off + 4 * n + ends[n - 1]);
            assert(bytes_at(data, off + 4 * n, ends[n - 1] as nat) == Ok::<(Seq<u8>, nat), crate::error::ErrorModel>((block, (off + 4 * n + ends[n - 1]) as nat)));
            lemma_run_pieces_strings(data, l, block, cur, count, check);
            lemma_string_pieces_runs(data, locs, i + 1, 0, (remaining - count) as nat, check);
            let head = rs.subrange(cur as int, (cur + count) as int);
            let tail = rest.subrange(0, (remaining - count) as int);
            assert(all.subrange(cur as int, (cur + remaining) as int) =~= head + tail);
        }
    }
}

} // verus!
