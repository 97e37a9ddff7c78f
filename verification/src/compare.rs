//! The two total orders over entry names: ASCII-case-insensitive
//! lexicographic, and natural (version-aware) order.

use vstd::prelude::*;
use vstd::slice::slice_subrange;

use crate::entry::DisplayEntry;

verus! {

/// The outcome of comparing two names.
#[derive(Clone, Copy, PartialEq, Eq, Structural, Debug)]
pub enum NameOrder {
    Less,
    Equal,
    Greater,
}

/// ASCII lower-casing of one byte.
pub open spec fn lower(b: u8) -> u8 {
    if 'A' as u8 <= b && b <= 'Z' as u8 {
        (b + 32) as u8
    } else {
        b
    }
}

/// Case-insensitive lexicographic order: bytes are compared ASCII
/// lower-cased, left to right; a strict prefix sorts first.
pub open spec fn ci_cmp(a: Seq<u8>, b: Seq<u8>) -> NameOrder
    decreases a.len() + b.len(),
{
    if a.len() == 0 && b.len() == 0 {
        NameOrder::Equal
    } else if a.len() == 0 {
        NameOrder::Less
    } else if b.len() == 0 {
        NameOrder::Greater
    } else if lower(a[0]) == lower(b[0]) {
        ci_cmp(a.drop_first(), b.drop_first())
    } else if lower(a[0]) < lower(b[0]) {
        NameOrder::Less
    } else {
        NameOrder::Greater
    }
}

/// ASCII lower-casing of one byte.
pub fn lower_byte(b: u8) -> (r: u8)
    ensures
        r == lower(b),
{
    if b >= 'A' as u8 && b <= 'Z' as u8 {
        b + 32
    } else {
        b
    }
}

/// Compare two names case-insensitively, as `ci_cmp` orders them.
pub fn compare_case_insensitive(a: &[u8], b: &[u8]) -> (r: NameOrder)
    ensures
        r == ci_cmp(a@, b@),
{
    let an = a.len();
    let bn = b.len();
    let mut i: usize = 0;
    proof {
        assert(a@.skip(0) =~= a@);
        assert(b@.skip(0) =~= b@);
    }
    while i < an && i < bn
        invariant
            i <= an,
            i <= bn,
            an == a@.len(),
            bn == b@.len(),
            ci_cmp(a@, b@) == ci_cmp(a@.skip(i as int), b@.skip(i as int)),
        decreases an - i,
    {
        let la = lower_byte(a[i]);
        let lb = lower_byte(b[i]);
        proof {
            let ask = a@.skip(i as int);
            let bsk = b@.skip(i as int);
            assert(ask[0] == a@[i as int]);
            assert(bsk[0] == b@[i as int]);
            assert(ask.drop_first() =~= a@.skip(i + 1 as int));
            assert(bsk.drop_first() =~= b@.skip(i + 1 as int));
        }
        if la < lb {
            return NameOrder::Less;
        }
        if la > lb {
            return NameOrder::Greater;
        }
        i = i + 1;
    }
    proof {
        assert(a@.skip(i as int).len() == an - i);
        assert(b@.skip(i as int).len() == bn - i);
    }
    if an == bn {
        NameOrder::Equal
    } else if an < bn {
        NameOrder::Less
    } else {
        NameOrder::Greater
    }
}

/// Whether a byte is an ASCII decimal digit.
pub open spec fn is_digit(b: u8) -> bool {
    '0' as u8 <= b && b <= '9' as u8
}

/// The name without its leading zero bytes.
pub open spec fn skip_zeros(s: Seq<u8>) -> Seq<u8>
    decreases s.len(),
{
    if s.len() > 0 && s[0] == '0' as u8 {
        skip_zeros(s.drop_first())
    } else {
        s
    }
}

/// The length of the leading digit run.
pub open spec fn run_len(s: Seq<u8>) -> nat
    decreases s.len(),
{
    if s.len() > 0 && is_digit(s[0]) {
        1 + run_len(s.drop_first())
    } else {
        0nat
    }
}

/// The first difference over the first `k` positions, bytes compared
/// directly.
pub open spec fn prefix_cmp(a: Seq<u8>, b: Seq<u8>, k: nat) -> NameOrder
    recommends
        k <= a.len(),
        k <= b.len(),
    decreases k,
{
    if k == 0 {
        NameOrder::Equal
    } else if a[0] < b[0] {
        NameOrder::Less
    } else if a[0] > b[0] {
        NameOrder::Greater
    } else {
        prefix_cmp(a.drop_first(), b.drop_first(), (k - 1) as nat)
    }
}

/// Dropping leading zeros never lengthens a name, and strictly shortens
/// one that starts with a zero.
pub proof fn lemma_skip_zeros_len(s: Seq<u8>)
    ensures
        skip_zeros(s).len() <= s.len(),
        s.len() > 0 && s[0] == '0' as u8 ==> skip_zeros(s).len() < s.len(),
    decreases s.len(),
{
    if s.len() > 0 && s[0] == '0' as u8 {
        lemma_skip_zeros_len(s.drop_first());
    }
}

/// The digit run is part of the name.
pub proof fn lemma_run_len_le(s: Seq<u8>)
    ensures
        run_len(s) <= s.len(),
    decreases s.len(),
{
    if s.len() > 0 && is_digit(s[0]) {
        lemma_run_len_le(s.drop_first());
    }
}

/// Natural (version-aware) order: digit runs, their leading zeros
/// ignored, compare as numbers — a longer run is greater, equal-length
/// runs by their first differing digit — and everything else compares
/// byte-for-byte; a strict prefix sorts first.
pub open spec fn nat_cmp(a: Seq<u8>, b: Seq<u8>) -> NameOrder
    decreases a.len() + b.len(),
    via nat_cmp_dec
{
    if a.len() == 0 && b.len() == 0 {
        NameOrder::Equal
    } else if a.len() == 0 {
        NameOrder::Less
    } else if b.len() == 0 {
        NameOrder::Greater
    } else if is_digit(a[0]) && is_digit(b[0]) {
        let a0 = skip_zeros(a);
        let b0 = skip_zeros(b);
        let la = run_len(a0);
        let lb = run_len(b0);
        if la > lb {
            NameOrder::Greater
        } else if la < lb {
            NameOrder::Less
        } else {
            let d = prefix_cmp(a0, b0, la);
            if d != NameOrder::Equal {
                d
            } else {
                nat_cmp(a0.skip(la as int), b0.skip(lb as int))
            }
        }
    } else if a[0] == b[0] {
        nat_cmp(a.drop_first(), b.drop_first())
    } else if a[0] < b[0] {
        NameOrder::Less
    } else {
        NameOrder::Greater
    }
}

#[via_fn]
proof fn nat_cmp_dec(a: Seq<u8>, b: Seq<u8>) {
    if a.len() > 0 && b.len() > 0 && is_digit(a[0]) && is_digit(b[0]) {
        lemma_skip_zeros_len(a);
        lemma_skip_zeros_len(b);
        lemma_run_len_le(skip_zeros(a));
        lemma_run_len_le(skip_zeros(b));
        if a[0] != '0' as u8 {
            assert(skip_zeros(a) == a);
            assert(run_len(skip_zeros(a)) >= 1);
        }
        if b[0] != '0' as u8 {
            assert(skip_zeros(b) == b);
            assert(run_len(skip_zeros(b)) >= 1);
        }
    }
}

/// The index of the first byte of a name that is not a zero.
fn count_zeros(s: &[u8]) -> (r: usize)
    ensures
        r <= s@.len(),
        skip_zeros(s@) == s@.skip(r as int),
    decreases s@.len(),
{
    let n = s.len();
    let mut i: usize = 0;
    proof {
        assert(s@.skip(0) =~= s@);
    }
    while i < n && s[i] == '0' as u8
        invariant
            i <= n,
            n == s@.len(),
            skip_zeros(s@) == skip_zeros(s@.skip(i as int)),
        decreases n - i,
    {
        proof {
            let sk = s@.skip(i as int);
            assert(sk[0] == s@[i as int]);
            assert(sk.drop_first() =~= s@.skip(i + 1 as int));
        }
        i = i + 1;
    }
    proof {
        let sk = s@.skip(i as int);
        if i < n {
            assert(sk[0] == s@[i as int]);
        }
        assert(skip_zeros(sk) == sk);
    }
    i
}

/// The length of the leading digit run of a name.
fn run_len_exec(s: &[u8]) -> (r: usize)
    ensures
        r as nat == run_len(s@),
        r <= s@.len(),
{
    let n = s.len();
    let mut i: usize = 0;
    proof {
        assert(s@.skip(0) =~= s@);
    }
    while i < n && s[i] >= '0' as u8 && s[i] <= '9' as u8
        invariant
            i <= n,
            n == s@.len(),
            run_len(s@) == i + run_len(s@.skip(i as int)),
        decreases n - i,
    {
        proof {
            let sk = s@.skip(i as int);
            assert(sk[0] == s@[i as int]);
            assert(sk.drop_first() =~= s@.skip(i + 1 as int));
        }
        i = i + 1;
    }
    proof {
        let sk = s@.skip(i as int);
        if i < n {
            assert(sk[0] == s@[i as int]);
        }
        assert(run_len(sk) == 0);
    }
    i
}

/// The first difference over the first `k` positions of two names.
fn prefix_cmp_exec(a: &[u8], b: &[u8], k: usize) -> (r: NameOrder)
    requires
        k <= a@.len(),
        k <= b@.len(),
    ensures
        r == prefix_cmp(a@, b@, k as nat),
{
    let mut i: usize = 0;
    proof {
        assert(a@.skip(0) =~= a@);
        assert(b@.skip(0) =~= b@);
    }
    while i < k
        invariant
            i <= k,
            k <= a@.len(),
            k <= b@.len(),
            prefix_cmp(a@, b@, k as nat) == prefix_cmp(
                a@.skip(i as int),
                b@.skip(i as int),
                (k - i) as nat,
            ),
        decreases k - i,
    {
        proof {
            let ask = a@.skip(i as int);
            let bsk = b@.skip(i as int);
            assert(ask[0] == a@[i as int]);
            assert(bsk[0] == b@[i as int]);
            assert(ask.drop_first() =~= a@.skip(i + 1 as int));
            assert(bsk.drop_first() =~= b@.skip(i + 1 as int));
        }
        if a[i] < b[i] {
            return NameOrder::Less;
        }
        if a[i] > b[i] {
            return NameOrder::Greater;
        }
        i = i + 1;
    }
    NameOrder::Equal
}

/// The opposite outcome, as swapping the operands gives it.
pub open spec fn flip_order(o: NameOrder) -> NameOrder {
    match o {
        NameOrder::Less => NameOrder::Greater,
        NameOrder::Equal => NameOrder::Equal,
        NameOrder::Greater => NameOrder::Less,
    }
}

/// Swapping the operands of the case-insensitive order flips its outcome.
pub proof fn lemma_ci_flip(a: Seq<u8>, b: Seq<u8>)
    ensures
        ci_cmp(b, a) == flip_order(ci_cmp(a, b)),
    decreases a.len() + b.len(),
{
    if a.len() > 0 && b.len() > 0 && lower(a[0]) == lower(b[0]) {
        lemma_ci_flip(a.drop_first(), b.drop_first());
    }
}

/// Swapping the operands of the first-difference comparison flips its
/// outcome.
proof fn lemma_prefix_flip(a: Seq<u8>, b: Seq<u8>, k: nat)
    requires
        k <= a.len(),
        k <= b.len(),
    ensures
        prefix_cmp(b, a, k) == flip_order(prefix_cmp(a, b, k)),
    decreases k,
{
    if k > 0 && a[0] == b[0] {
        lemma_prefix_flip(a.drop_first(), b.drop_first(), (k - 1) as nat);
    }
}

/// Swapping the operands of the natural order flips its outcome.
pub proof fn lemma_nat_flip(a: Seq<u8>, b: Seq<u8>)
    ensures
        nat_cmp(b, a) == flip_order(nat_cmp(a, b)),
    decreases a.len() + b.len(),
{
    if a.len() > 0 && b.len() > 0 {
        if is_digit(a[0]) && is_digit(b[0]) {
            let a0 = skip_zeros(a);
            let b0 = skip_zeros(b);
            let la = run_len(a0);
            let lb = run_len(b0);
            lemma_skip_zeros_len(a);
            lemma_skip_zeros_len(b);
            lemma_run_len_le(a0);
            lemma_run_len_le(b0);
            if la == lb {
                lemma_prefix_flip(a0, b0, la);
                if prefix_cmp(a0, b0, la) == NameOrder::Equal {
                    if a[0] != '0' as u8 {
                        assert(skip_zeros(a) == a);
                        assert(run_len(skip_zeros(a)) >= 1);
                    }
                    if b[0] != '0' as u8 {
                        assert(skip_zeros(b) == b);
                        assert(run_len(skip_zeros(b)) >= 1);
                    }
                    lemma_nat_flip(a0.skip(la as int), b0.skip(lb as int));
                }
            }
        } else if a[0] == b[0] {
            lemma_nat_flip(a.drop_first(), b.drop_first());
        }
    }
}

/// Compare two names in natural (version-aware) order, as `nat_cmp`
/// orders them.
pub fn compare_natural(a: &[u8], b: &[u8]) -> (r: NameOrder)
    ensures
        r == nat_cmp(a@, b@),
    decreases a@.len() + b@.len(),
{
    let an = a.len();
    let bn = b.len();
    if an == 0 && bn == 0 {
        return NameOrder::Equal;
    }
    if an == 0 {
        return NameOrder::Less;
    }
    if bn == 0 {
        return NameOrder::Greater;
    }
    let da = a[0] >= '0' as u8 && a[0] <= '9' as u8;
    let db = b[0] >= '0' as u8 && b[0] <= '9' as u8;
    if da && db {
        let za = count_zeros(a);
        let zb = count_zeros(b);
        let a0 = slice_subrange(a, za, an);
        let b0 = slice_subrange(b, zb, bn);
        proof {
            assert(a0@ =~= skip_zeros(a@));
            assert(b0@ =~= skip_zeros(b@));
        }
        let la = run_len_exec(a0);
        let lb = run_len_exec(b0);
        if la > lb {
            NameOrder::Greater
        } else if la < lb {
            NameOrder::Less
        } else {
            let d = prefix_cmp_exec(a0, b0, la);
            if d != NameOrder::Equal {
                d
            } else {
                proof {
                    lemma_skip_zeros_len(a@);
                    lemma_skip_zeros_len(b@);
                    if a@[0] != '0' as u8 {
                        assert(skip_zeros(a@) == a@);
                        assert(run_len(skip_zeros(a@)) >= 1);
                    }
                    if b@[0] != '0' as u8 {
                        assert(skip_zeros(b@) == b@);
                        assert(run_len(skip_zeros(b@)) >= 1);
                    }
                }
                let ar = slice_subrange(a0, la, a0.len());
                let br = slice_subrange(b0, lb, b0.len());
                proof {
                    assert(ar@ =~= skip_zeros(a@).skip(la as int));
                    assert(br@ =~= skip_zeros(b@).skip(lb as int));
                }
                compare_natural(ar, br)
            }
        }
    } else if a[0] == b[0] {
        let ar = slice_subrange(a, 1, an);
        let br = slice_subrange(b, 1, bn);
        proof {
            assert(ar@ =~= a@.drop_first());
            assert(br@ =~= b@.drop_first());
        }
        compare_natural(ar, br)
    } else if a[0] < b[0] {
        NameOrder::Less
    } else {
        NameOrder::Greater
    }
}

/// The order a render mode sorts by: natural for the grid, else
/// case-insensitive.
pub open spec fn cmp_by(natural: bool, a: Seq<u8>, b: Seq<u8>) -> NameOrder {
    if natural {
        nat_cmp(a, b)
    } else {
        ci_cmp(a, b)
    }
}

/// Whether `a` may stand before `b` in the selected order.
pub open spec fn name_le(natural: bool, a: Seq<u8>, b: Seq<u8>) -> bool {
    cmp_by(natural, a, b) != NameOrder::Greater
}

/// Whether the entry at `k` may stand before its right neighbor.
pub open spec fn ordered_at(natural: bool, es: Seq<DisplayEntry>, k: int) -> bool {
    name_le(natural, es[k].name@, es[k + 1].name@)
}

/// Whether every entry may stand before its neighbor.
pub open spec fn entries_ordered(natural: bool, es: Seq<DisplayEntry>) -> bool {
    forall|k: int| 0 <= k < es.len() - 1 ==> #[trigger] ordered_at(natural, es, k)
}

/// Compare two names in the order the render mode calls for.
pub fn compare_by(natural: bool, a: &[u8], b: &[u8]) -> (r: NameOrder)
    ensures
        r == cmp_by(natural, a@, b@),
{
    if natural {
        compare_natural(a, b)
    } else {
        compare_case_insensitive(a, b)
    }
}

/// Where the entry at `i` belongs among the entries before it: everything
/// it passes on its way left compares greater than it.
fn insert_pos(entries: &Vec<DisplayEntry>, natural: bool, i: usize) -> (j: usize)
    requires
        i < entries@.len(),
    ensures
        j <= i,
        forall|k: int|
            j <= k < i ==> cmp_by(natural, (#[trigger] entries@[k]).name@, entries@[i as int].name@)
                == NameOrder::Greater,
        j > 0 ==> cmp_by(natural, entries@[j - 1].name@, entries@[i as int].name@)
            != NameOrder::Greater,
{
    let mut j: usize = i;
    loop
        invariant
            j <= i,
            i < entries@.len(),
            forall|k: int|
                j <= k < i ==> cmp_by(
                    natural,
                    (#[trigger] entries@[k]).name@,
                    entries@[i as int].name@,
                ) == NameOrder::Greater,
        ensures
            j <= i,
            forall|k: int|
                j <= k < i ==> cmp_by(
                    natural,
                    (#[trigger] entries@[k]).name@,
                    entries@[i as int].name@,
                ) == NameOrder::Greater,
            j > 0 ==> cmp_by(natural, entries@[j - 1].name@, entries@[i as int].name@)
                != NameOrder::Greater,
        decreases j,
    {
        if j == 0 {
            break ;
        }
        let c = compare_by(natural, entries[j - 1].name.as_slice(), entries[i].name.as_slice());
        if c != NameOrder::Greater {
            break ;
        }
        j = j - 1;
    }
    j
}

/// Moving an entry back to its insertion point keeps the entries a
/// permutation and restores the neighbor order over the prefix.
#[verifier::rlimit(100)]
#[verifier::spinoff_prover]
proof fn lemma_insert_step(pre: Seq<DisplayEntry>, natural: bool, i: int, j: int)
    requires
        0 <= j <= i < pre.len(),
        forall|k: int|
            j <= k < i ==> cmp_by(natural, (#[trigger] pre[k]).name@, pre[i].name@)
                == NameOrder::Greater,
        j > 0 ==> cmp_by(natural, pre[j - 1].name@, pre[i].name@) != NameOrder::Greater,
        forall|k: int| 0 <= k < i - 1 ==> #[trigger] ordered_at(natural, pre, k),
    ensures
        pre.remove(i).insert(j, pre[i]).len() == pre.len(),
        pre.remove(i).insert(j, pre[i]).to_multiset() == pre.to_multiset(),
        forall|k: int|
            0 <= k < i && k + 1 < pre.len() ==> #[trigger] ordered_at(
                natural,
                pre.remove(i).insert(j, pre[i]),
                k,
            ),
{
    broadcast use vstd::multiset::group_multiset_axioms;

    let x = pre[i];
    let rem = pre.remove(i);
    let fin = rem.insert(j, x);
    pre.remove_ensures(i);
    rem.insert_ensures(j, x);
    vstd::seq_lib::to_multiset_remove(pre, i);
    vstd::seq_lib::to_multiset_insert(rem, j, x);
    pre.to_multiset_ensures();
    assert(pre.contains(x));
    assert(fin.to_multiset() =~= pre.to_multiset());
    if j < i {
        if natural {
            lemma_nat_flip(pre[j].name@, pre[i].name@);
        } else {
            lemma_ci_flip(pre[j].name@, pre[i].name@);
        }
    }
    assert forall|k: int| 0 <= k < i && k + 1 < pre.len() implies #[trigger] ordered_at(
        natural,
        fin,
        k,
    ) by {
        if k < j - 1 {
            assert(fin[k] == rem[k] && rem[k] == pre[k]);
            assert(fin[k + 1] == rem[k + 1] && rem[k + 1] == pre[k + 1]);
            assert(ordered_at(natural, pre, k));
        } else if k == j - 1 {
            assert(fin[k] == rem[k] && rem[k] == pre[k]);
            assert(fin[k + 1] == x);
        } else if k == j {
            assert(fin[k] == x);
            assert(fin[k + 1] == rem[k] && rem[k] == pre[k]);
        } else {
            assert(fin[k] == rem[k - 1] && rem[k - 1] == pre[k - 1]);
            assert(fin[k + 1] == rem[k] && rem[k] == pre[k]);
            assert(ordered_at(natural, pre, k - 1));
        }
    }
}

/// Sort the entries by the selected order: the result is a permutation of
/// the input in which every entry may stand before its neighbor.
#[verifier::rlimit(100)]
#[verifier::spinoff_prover]
pub fn sort_entries(entries: &mut Vec<DisplayEntry>, natural: bool)
    ensures
        final(entries)@.len() == old(entries)@.len(),
        final(entries)@.to_multiset() == old(entries)@.to_multiset(),
        entries_ordered(natural, final(entries)@),
{
    let n = entries.len();
    let mut i: usize = 1;
    while i < n
        invariant
            1 <= i,
            n == entries@.len(),
            i <= n || n <= 1,
            entries@.to_multiset() == old(entries)@.to_multiset(),
            forall|k: int| 0 <= k < i - 1 ==> #[trigger] ordered_at(natural, entries@, k),
        decreases n - i,
    {
        let ghost pre = entries@;
        let j = insert_pos(entries, natural, i);
        let x = entries.remove(i);
        entries.insert(j, x);
        proof {
            lemma_insert_step(pre, natural, i as int, j as int);
            assert(entries@ == pre.remove(i as int).insert(j as int, pre[i as int]));
        }
        i = i + 1;
    }
}

} // verus!
