//! One render job per pixel, and the reassembly of results that arrive in any
//! order into raster order.
use vstd::prelude::*;
use vstd::arithmetic::div_mod::lemma_fundamental_div_mod_converse;
use vstd::set_lib::{lemma_int_range, lemma_subset_equality, set_int_range};

verus! {

/// A pixel of the image. `row` counts from the bottom edge of the image,
/// `col` from the left edge.
#[derive(Clone, Copy, Debug, PartialEq, Eq, Structural)]
pub struct Pixel {
    pub row: u32,
    pub col: u32,
}

/// Row of the pixel whose job carries sequence number `seq`.
pub open spec fn job_row(seq: nat, width: nat) -> nat {
    seq / width
}

/// Column of the pixel whose job carries sequence number `seq`: within a row,
/// jobs are submitted from the right edge to the left edge.
pub open spec fn job_col(seq: nat, width: nat) -> nat {
    (width - 1 - seq % width) as nat
}

/// The pixel of every job, in submission order: rows from the bottom up, and
/// within a row from right to left. The job at index `s` carries sequence
/// number `s`.
pub fn render_jobs(width: u32, height: u32) -> (r: Vec<Pixel>)
    requires
        width as nat * height as nat <= usize::MAX as nat,
    ensures
        r@.len() == width as nat * height as nat,
        forall|s: int|
            0 <= s < r@.len() ==> {
                &&& r@[s].row as nat == job_row(s as nat, width as nat)
                &&& r@[s].col as nat == job_col(s as nat, width as nat)
            },
{
    let mut jobs: Vec<Pixel> = Vec::new();
    let mut j: u32 = 0;
    while j < height
        invariant
            j <= height,
            width as nat * height as nat <= usize::MAX as nat,
            jobs@.len() == j as nat * width as nat,
            forall|s: int|
                0 <= s < jobs@.len() ==> {
                    &&& jobs@[s].row as nat == job_row(s as nat, width as nat)
                    &&& jobs@[s].col as nat == job_col(s as nat, width as nat)
                },
        decreases height - j,
    {
        let mut i: u32 = width;
        while i > 0
            invariant
                i <= width,
                j < height,
                width as nat * height as nat <= usize::MAX as nat,
                jobs@.len() == j as nat * width as nat + (width - i) as nat,
                forall|s: int|
                    0 <= s < jobs@.len() ==> {
                        &&& jobs@[s].row as nat == job_row(s as nat, width as nat)
                        &&& jobs@[s].col as nat == job_col(s as nat, width as nat)
                    },
            decreases i,
        {
            i = i - 1;
            proof {
                let s = j as int * width as int + (width - 1 - i) as int;
                lemma_fundamental_div_mod_converse(s, width as int, j as int, (width - 1 - i) as int);
                assert(j as nat * width as nat + (width - i) as nat <= height as nat * width as nat)
                    by (nonlinear_arith)
                    requires
                        j < height,
                        i < width,
                ;
            }
            jobs.push(Pixel { row: j, col: i });
        }
        proof {
            assert((j + 1) as nat * width as nat == j as nat * width as nat + width as nat)
                by (nonlinear_arith);
        }
        j = j + 1;
    }
    assert(height as nat * width as nat == width as nat * height as nat) by (nonlinear_arith);
    jobs
}

/// Why a set of tagged results cannot be put back into raster order.
#[derive(Clone, Copy, Debug, PartialEq, Eq, Structural)]
pub enum ReassembleError {
    /// The number of results differs from the number of jobs.
    WrongCount,
    /// A result carries a sequence number that no job had.
    TagOutOfRange,
    /// Two results carry the same sequence number.
    DuplicateTag,
}

/// Every tag is a sequence number of one of `n` jobs.
pub open spec fn tags_in_range<T>(n: nat, results: Seq<(usize, T)>) -> bool {
    forall|i: int| 0 <= i < results.len() ==> (results[i].0 as nat) < n
}

/// No two results carry the same tag.
pub open spec fn tags_distinct<T>(results: Seq<(usize, T)>) -> bool {
    forall|i: int, j: int|
        0 <= i < results.len() && 0 <= j < results.len() && i != j ==> results[i].0 != results[j].0
}

/// Puts the results of `n` jobs, each tagged with its job's sequence number and
/// delivered in any order, back into raster order: the result of the job with
/// sequence number `s` lands at position `n - 1 - s`. This holds whatever order
/// the results came in; a lost, duplicated or foreign result is reported.
pub fn reassemble<T: Copy>(n: usize, results: &Vec<(usize, T)>) -> (r: Result<Vec<T>, ReassembleError>)
    ensures
        results@.len() != n ==> r == Err::<Vec<T>, ReassembleError>(ReassembleError::WrongCount),
        results@.len() == n && !tags_in_range(n as nat, results@) ==> r == Err::<Vec<T>, ReassembleError>(
            ReassembleError::TagOutOfRange,
        ),
        results@.len() == n && tags_in_range(n as nat, results@) && !tags_distinct(results@) ==> r
            == Err::<Vec<T>, ReassembleError>(ReassembleError::DuplicateTag),
        r is Ok <==> results@.len() == n && tags_in_range(n as nat, results@) && tags_distinct(
            results@,
        ),
        r matches Ok(out) ==> {
            &&& out@.len() == n
            &&& forall|i: int|
                0 <= i < n ==> out@[n - 1 - results@[i].0] == results@[i].1
        },
{
    if results.len() != n {
        return Err(ReassembleError::WrongCount);
    }
    let mut i: usize = 0;
    while i < n
        invariant
            i <= n,
            results@.len() == n,
            forall|k: int| 0 <= k < i ==> (results@[k].0 as nat) < n,
        decreases n - i,
    {
        if results[i].0 >= n {
            return Err(ReassembleError::TagOutOfRange);
        }
        i = i + 1;
    }
    let mut slots: Vec<Option<T>> = Vec::new();
    let mut k: usize = 0;
    while k < n
        invariant
            k <= n,
            slots@.len() == k,
            forall|m: int| 0 <= m < k ==> slots@[m] is None,
        decreases n - k,
    {
        slots.push(None);
        k = k + 1;
    }
    let ghost mut filled: Set<int> = Set::empty();
    let mut i: usize = 0;
    while i < n
        invariant
            i <= n,
            results@.len() == n,
            slots@.len() == n,
            tags_in_range(n as nat, results@),
            filled.finite(),
            filled.len() == i,
            forall|m: int| 0 <= m < n ==> (slots@[m] is Some <==> filled.contains(m)),
            filled.subset_of(set_int_range(0, n as int)),
            forall|m: int|
                filled.contains(m) ==> exists|a: int| 0 <= a < i && m == n - 1 - results@[a].0,
            forall|a: int, b: int| 0 <= a < i && 0 <= b < i && a != b ==> results@[a].0 != results@[b].0,
            forall|a: int| 0 <= a < i ==> slots@[n - 1 - results@[a].0] == Some(results@[a].1),
        decreases n - i,
    {
        let (tag, value) = results[i];
        let pos = n - 1 - tag;
        if slots[pos].is_some() {
            proof {
                assert(filled.contains(pos as int));
                let a = choose|a: int| 0 <= a < i && pos as int == n - 1 - results@[a].0;
                assert(results@[a].0 == results@[i as int].0);
            }
            return Err(ReassembleError::DuplicateTag);
        }
        proof {
            assert(forall|a: int| 0 <= a < i ==> n - 1 - results@[a].0 != pos);
            filled = filled.insert(pos as int);
            assert forall|m: int| filled.contains(m) implies exists|a: int|
                0 <= a < i + 1 && m == n - 1 - results@[a].0 by {
                if m == pos {
                    assert(m == n - 1 - results@[i as int].0);
                }
            }
        }
        slots.set(pos, Some(value));
        i = i + 1;
    }
    proof {
        lemma_int_range(0, n as int);
        lemma_subset_equality(filled, set_int_range(0, n as int));
        assert forall|m: int| 0 <= m < n implies slots@[m] is Some by {
            assert(set_int_range(0, n as int).contains(m));
        }
    }
    let mut out: Vec<T> = Vec::new();
    let mut k: usize = 0;
    while k < n
        invariant
            k <= n,
            slots@.len() == n,
            out@.len() == k,
            forall|m: int| 0 <= m < n ==> slots@[m] is Some,
            forall|m: int| 0 <= m < k ==> slots@[m] == Some(out@[m]),
        decreases n - k,
    {
        match slots[k] {
            Some(v) => out.push(v),
            None => {},
        }
        k = k + 1;
    }
    Ok(out)
}

/// Reassembly restores raster order. For an image of `width` by `height`
/// pixels, position `k` of the reassembled buffer holds the result of the job
/// with sequence number `width * height - 1 - k`; that job's pixel lies
/// `k / width` rows below the top edge (row `height - 1 - k / width` counted
/// from the bottom) and `k % width` columns right of the left edge.
pub proof fn lemma_reassembled_raster_order(width: nat, height: nat, k: nat)
    requires
        width > 0,
        k < width * height,
    ensures
        job_row((width * height - 1 - k) as nat, width) == height - 1 - k / width,
        job_col((width * height - 1 - k) as nat, width) == k % width,
{
    let q = (k / width) as int;
    let r = (k % width) as int;
    let s = width * height - 1 - k;
    assert(k as int == q * width + r) by {
        vstd::arithmetic::div_mod::lemma_fundamental_div_mod(k as int, width as int);
    }
    assert(q < height) by (nonlinear_arith)
        requires
            k as int == q * width + r,
            0 <= r,
            k < width * height,
            width > 0,
    ;
    assert(s == (height - 1 - q) * width + (width - 1 - r)) by (nonlinear_arith)
        requires
            k as int == q * width + r,
            s == width * height - 1 - k,
    ;
    lemma_fundamental_div_mod_converse(s, width as int, height - 1 - q, width - 1 - r);
}

} // verus!
