//! The multi-column grid render mode: display widths, the column-fitting
//! search, and column-major emission.

use unicode_segmentation::UnicodeSegmentation;
use vstd::arithmetic::div_mod::{lemma_fundamental_div_mod, lemma_fundamental_div_mod_converse};
use vstd::prelude::*;

use crate::buffer::BufferedStdout;
use crate::entry::DisplayEntry;
use crate::fields::spaces;
use crate::style::{emit_style, Style};

verus! {

/// The number of grapheme clusters the bytes render as, when they are
/// valid UTF-8, and the byte count otherwise.
pub uninterp spec fn grapheme_count(s: Seq<u8>) -> nat;

/// Relies on `unicode_segmentation::UnicodeSegmentation::graphemes` (with
/// `core::str::from_utf8`): the grapheme-cluster count of the text, a
/// function of the bytes alone; clusters are non-empty, so the count
/// never exceeds the byte count, which is also the result for bytes that
/// are not valid UTF-8.
#[verifier::external_body]
fn grapheme_len(s: &[u8]) -> (r: usize)
    ensures
        r as nat == grapheme_count(s@),
        r <= s@.len(),
{
    core::str::from_utf8(s).map(|t| t.graphemes(false).count()).unwrap_or(s.len())
}

/// Whether every byte is ASCII.
pub open spec fn all_ascii(s: Seq<u8>) -> bool {
    forall|i: int| 0 <= i < s.len() ==> s[i] < 128
}

/// The display width of a name: its byte count when pure ASCII, else its
/// grapheme-cluster count.
pub open spec fn display_len(s: Seq<u8>) -> nat {
    if all_ascii(s) {
        s.len()
    } else {
        grapheme_count(s)
    }
}

/// The display width of a name in columns.
pub fn len_utf8(s: &[u8]) -> (r: usize)
    ensures
        r as nat == display_len(s@),
        r <= s@.len(),
{
    let n = s.len();
    let mut i: usize = 0;
    let mut ascii = true;
    while i < n
        invariant
            i <= n,
            n == s@.len(),
            ascii == (forall|j: int| 0 <= j < i ==> (#[trigger] s@[j]) < 128),
        decreases n - i,
    {
        if s[i] >= 128 {
            ascii = false;
        }
        i = i + 1;
    }
    if ascii {
        s.len()
    } else {
        grapheme_len(s)
    }
}

/// Entries per column when `n` entries fill `cols` columns: the ceiling
/// of their quotient.
pub open spec fn ceil_div(n: nat, cols: nat) -> nat
    recommends
        cols > 0,
{
    n / cols + if n % cols != 0 {
        1nat
    } else {
        0nat
    }
}

/// The largest display width among entries `lo` (inclusive) to `hi`
/// (exclusive).
pub open spec fn chunk_max(es: Seq<DisplayEntry>, lo: int, hi: int) -> nat
    decreases hi - lo,
{
    if lo < 0 || lo >= hi || hi > es.len() {
        0
    } else {
        let cur = display_len(es[lo].name@);
        let rest = chunk_max(es, lo + 1, hi);
        if cur >= rest {
            cur
        } else {
            rest
        }
    }
}

/// The largest raw byte length among all entry names.
pub open spec fn max_name_len(es: Seq<DisplayEntry>) -> nat
    decreases es.len(),
{
    if es.len() == 0 {
        0
    } else {
        let rest = max_name_len(es.drop_first());
        if es[0].name@.len() >= rest {
            es[0].name@.len()
        } else {
            rest
        }
    }
}

/// The per-column widths when the entries are cut into `cols` contiguous
/// chunks of `ceil_div` entries each: the chunk's largest display width
/// plus two; columns past the last chunk are zero-width.
pub open spec fn widths_for(es: Seq<DisplayEntry>, cols: nat) -> Seq<nat>
    recommends
        cols >= 1,
{
    let n = es.len() as int;
    let per = ceil_div(es.len(), cols) as int;
    Seq::new(
        cols,
        |k: int|
            if k * per < n {
                chunk_max(es, k * per, if (k + 1) * per < n {
                    (k + 1) * per
                } else {
                    n
                }) + 2
            } else {
                0
            },
    )
}

/// The sum of a width list.
pub open spec fn sum_widths(ws: Seq<nat>) -> nat
    decreases ws.len(),
{
    if ws.len() == 0 {
        0
    } else {
        ws[0] + sum_widths(ws.drop_first())
    }
}

/// Whether `cols` columns fit in the terminal width.
pub open spec fn fits(es: Seq<DisplayEntry>, cols: nat, tw: nat) -> bool {
    sum_widths(widths_for(es, cols)) <= tw
}

/// The column count the search settles on after having accepted `c`:
/// counts climb one at a time until the next count no longer fits or one
/// entry per column is reached.
pub open spec fn chosen_from(es: Seq<DisplayEntry>, tw: nat, c: nat) -> nat
    decreases es.len() - c,
{
    if c >= es.len() {
        es.len()
    } else if !fits(es, (c + 1) as nat, tw) {
        c
    } else {
        chosen_from(es, tw, (c + 1) as nat)
    }
}

/// The chosen column count: the largest prefix of fitting counts, and one
/// column when even a single column does not fit.
pub open spec fn grid_columns(es: Seq<DisplayEntry>, tw: nat) -> nat {
    if !fits(es, 1, tw) {
        1
    } else {
        chosen_from(es, tw, 1)
    }
}

/// The chosen widths: those of the chosen column count, except that when
/// a single column does not fit the single width is the largest raw name
/// length.
pub open spec fn grid_widths(es: Seq<DisplayEntry>, tw: nat) -> Seq<nat> {
    if !fits(es, 1, tw) {
        seq![max_name_len(es)]
    } else {
        widths_for(es, grid_columns(es, tw))
    }
}

/// Every entry of the chunk is no wider than the chunk's maximum.
proof fn lemma_chunk_max_ge(es: Seq<DisplayEntry>, lo: int, hi: int, i: int)
    requires
        0 <= lo <= i < hi <= es.len(),
    ensures
        chunk_max(es, lo, hi) >= display_len(es[i].name@),
    decreases i - lo,
{
    if i > lo {
        lemma_chunk_max_ge(es, lo + 1, hi, i);
    }
}

/// Every name is no longer than the longest.
proof fn lemma_max_name_len_ge(es: Seq<DisplayEntry>, i: int)
    requires
        0 <= i < es.len(),
    ensures
        max_name_len(es) >= es[i].name@.len(),
    decreases i,
{
    if i > 0 {
        lemma_max_name_len_ge(es.drop_first(), i - 1);
    }
}

/// Where an entry index falls when `n` entries are cut into `cols` chunks
/// of `ceil_div(n, cols)` entries.
proof fn lemma_chunk_index(n: nat, cols: nat, idx: int)
    requires
        1 <= cols <= n,
        0 <= idx < n,
    ensures
        ceil_div(n, cols) >= 1,
        (cols as int) * (ceil_div(n, cols) as int) >= n as int,
        0 <= idx / (ceil_div(n, cols) as int) < cols,
        (idx / (ceil_div(n, cols) as int)) * (ceil_div(n, cols) as int) <= idx < (idx / (ceil_div(
            n,
            cols,
        ) as int)) * (ceil_div(n, cols) as int) + (ceil_div(n, cols) as int),
{
    let per = ceil_div(n, cols) as int;
    let ni = n as int;
    let ci = cols as int;
    lemma_fundamental_div_mod(ni, ci);
    let nq = ni / ci;
    let nr = ni % ci;
    assert(ci * (nq + 1) == ci * nq + ci) by (nonlinear_arith);
    assert((cols as int) * per >= n as int);
    assert(per >= 1) by (nonlinear_arith)
        requires
            (cols as int) * per >= n as int,
            n >= cols,
            cols >= 1,
            per >= 0,
    ;
    lemma_fundamental_div_mod(idx, per);
    let q = idx / per;
    assert(q * per <= idx && idx < q * per + per) by (nonlinear_arith)
        requires
            idx == per * q + idx % per,
            0 <= idx % per,
            idx % per < per,
    ;
    assert(q >= 0) by (nonlinear_arith)
        requires
            idx == per * q + idx % per,
            0 <= idx,
            per >= 1,
            0 <= idx % per,
            idx % per < per,
    ;
    assert(q < cols) by (nonlinear_arith)
        requires
            q * per <= idx,
            idx < n as int,
            n as int <= (cols as int) * per,
            per >= 1,
    ;
}

/// The largest display width among entries `start` to `end`, exclusive.
fn chunk_max_exec(entries: &Vec<DisplayEntry>, start: usize, end: usize) -> (m: usize)
    requires
        start < end <= entries@.len(),
    ensures
        m as nat == chunk_max(entries@, start as int, end as int),
        forall|j: int|
            start <= j < end ==> display_len((#[trigger] entries@[j]).name@)
                <= entries@[j].name@.len(),
        m == 0 || exists|j: int|
            start <= j < end && m as nat <= (#[trigger] entries@[j]).name@.len(),
{
    let mut m: usize = 0;
    let mut idx = start;
    while idx < end
        invariant
            start <= idx <= end,
            end <= entries@.len(),
            chunk_max(entries@, start as int, end as int) == if m as nat >= chunk_max(
                entries@,
                idx as int,
                end as int,
            ) {
                m as nat
            } else {
                chunk_max(entries@, idx as int, end as int)
            },
            forall|j: int|
                start <= j < idx ==> display_len((#[trigger] entries@[j]).name@)
                    <= entries@[j].name@.len(),
            m == 0 || exists|j: int|
                start <= j < idx && m as nat <= (#[trigger] entries@[j]).name@.len(),
        decreases end - idx,
    {
        let w = len_utf8(entries[idx].name.as_slice());
        if w > m {
            m = w;
        }
        idx = idx + 1;
    }
    m
}

/// The largest raw byte length among all entry names.
fn max_name_len_exec(entries: &Vec<DisplayEntry>) -> (m: usize)
    ensures
        m as nat == max_name_len(entries@),
{
    let n = entries.len();
    let mut m: usize = 0;
    let mut i: usize = 0;
    proof {
        assert(entries@.skip(0) =~= entries@);
    }
    while i < n
        invariant
            i <= n,
            n == entries@.len(),
            max_name_len(entries@) == if m as nat >= max_name_len(entries@.skip(i as int)) {
                m as nat
            } else {
                max_name_len(entries@.skip(i as int))
            },
        decreases n - i,
    {
        let l = entries[i].name.len();
        if l > m {
            m = l;
        }
        proof {
            let sk = entries@.skip(i as int);
            assert(sk[0] == entries@[i as int]);
            assert(sk.drop_first() =~= entries@.skip(i + 1 as int));
        }
        i = i + 1;
    }
    m
}

/// The sum of the widths, wide enough never to overflow.
fn sum_widths_exec(ws: &Vec<usize>) -> (s: u128)
    ensures
        s as nat == sum_widths(ws@.map_values(|w: usize| w as nat)),
{
    let ghost mapped = ws@.map_values(|w: usize| w as nat);
    let n = ws.len();
    let mut s: u128 = 0;
    let mut i: usize = 0;
    proof {
        assert(mapped.skip(0) =~= mapped);
    }
    while i < n
        invariant
            i <= n,
            n == ws@.len(),
            mapped == ws@.map_values(|w: usize| w as nat),
            s as nat <= i * 0xffff_ffff_ffff_ffff,
            sum_widths(mapped) == s as nat + sum_widths(mapped.skip(i as int)),
        decreases n - i,
    {
        proof {
            let sk = mapped.skip(i as int);
            assert(sk[0] == mapped[i as int]);
            assert(sk.drop_first() =~= mapped.skip(i + 1 as int));
            assert(mapped[i as int] == ws@[i as int] as nat);
        }
        s = s + (ws[i] as u128);
        i = i + 1;
    }
    proof {
        assert(mapped.skip(n as int).len() == 0);
    }
    s
}

/// In a chunked layout every entry's column is wide enough for it, with
/// the two separator columns to spare.
proof fn lemma_widths_for_cover(es: Seq<DisplayEntry>, cols: nat)
    requires
        1 <= cols <= es.len(),
    ensures
        forall|idx: int|
            0 <= idx < es.len() ==> {
                let per = ceil_div(es.len(), cols) as int;
                &&& 0 <= idx / per < widths_for(es, cols).len()
                &&& display_len((#[trigger] es[idx]).name@) + 2 <= widths_for(es, cols)[idx / per]
            },
{
    let per = ceil_div(es.len(), cols) as int;
    let n = es.len() as int;
    assert forall|idx: int| 0 <= idx < es.len() implies {
        &&& 0 <= idx / per < widths_for(es, cols).len()
        &&& display_len((es[idx]).name@) + 2 <= widths_for(es, cols)[idx / per]
    } by {
        lemma_chunk_index(es.len(), cols, idx);
        let k = idx / per;
        let hi = if (k + 1) * per < n {
            (k + 1) * per
        } else {
            n
        };
        assert((k + 1) * per == k * per + per) by (nonlinear_arith);
        lemma_chunk_max_ge(es, k * per, hi, idx);
        assert(widths_for(es, cols)[k] == chunk_max(es, k * per, hi) + 2);
    }
}

/// Compute the grid layout: the column count and per-column widths that
/// the fitting search settles on for the given terminal width.
#[verifier::rlimit(80)]
pub fn compute_layout(entries: &Vec<DisplayEntry>, terminal_width: usize) -> (r: (usize, Vec<usize>))
    requires
        1 <= entries@.len() < usize::MAX,
        forall|i: int|
            0 <= i < entries@.len() ==> (#[trigger] entries@[i]).name@.len() + 2 <= usize::MAX,
    ensures
        r.0 as nat == grid_columns(entries@, terminal_width as nat),
        r.1@.map_values(|w: usize| w as nat) == grid_widths(entries@, terminal_width as nat),
        1 <= r.0 <= entries@.len(),
        forall|idx: int|
            0 <= idx < entries@.len() ==> {
                let per = ceil_div(entries@.len(), r.0 as nat) as int;
                &&& 0 <= idx / per < r.1@.len()
                &&& display_len((#[trigger] entries@[idx]).name@) <= r.1@[idx / per] as nat
            },
{
    let ghost es = entries@;
    let ghost tw = terminal_width as nat;
    let n = entries.len();
    let maxlen = max_name_len_exec(entries);
    let mut columns: usize = 1;
    let mut widths: Vec<usize> = Vec::new();
    widths.push(maxlen);
    let mut cols: usize = 1;
    while cols <= n
        invariant_except_break
            1 <= cols <= n + 1,
            1 <= n,
            n == es.len(),
            es == entries@,
            tw == terminal_width as nat,
            n < usize::MAX,
            maxlen as nat == max_name_len(es),
            forall|i: int| 0 <= i < n ==> (#[trigger] es[i]).name@.len() + 2 <= usize::MAX,
            cols == 1 ==> columns == 1 && widths@ =~= seq![maxlen],
            cols > 1 ==> {
                &&& fits(es, 1, tw)
                &&& columns as nat == cols - 1
                &&& widths@.map_values(|w: usize| w as nat) == widths_for(es, (cols - 1) as nat)
                &&& grid_columns(es, tw) == chosen_from(es, tw, (cols - 1) as nat)
                &&& forall|j: int|
                    0 <= j < n ==> display_len((#[trigger] es[j]).name@) <= es[j].name@.len()
            },
            cols > n ==> {
                &&& 1 <= columns <= n
                &&& columns as nat == grid_columns(es, tw)
                &&& widths@.map_values(|w: usize| w as nat) == grid_widths(es, tw)
            },
        ensures
            1 <= columns <= n,
            columns as nat == grid_columns(es, tw),
            widths@.map_values(|w: usize| w as nat) == grid_widths(es, tw),
            forall|j: int| 0 <= j < n ==> display_len((#[trigger] es[j]).name@) <= es[j].name@.len(),
        decreases n + 1 - cols,
    {
        let per = n / cols + if n % cols != 0 {
            1
        } else {
            0
        };
        let ghost pers = ceil_div(es.len(), cols as nat) as int;
        let mut tmp: Vec<usize> = Vec::new();
        let mut start: usize = 0;
        let mut k: usize = 0;
        proof {
            lemma_chunk_index(es.len(), cols as nat, 0);
        }
        while k < cols
            invariant
                k <= cols,
                1 <= cols <= n,
                n == es.len(),
                es == entries@,
                per as int == pers,
                pers == ceil_div(es.len(), cols as nat) as int,
                per >= 1,
                n < usize::MAX,
                forall|i: int| 0 <= i < n ==> (#[trigger] es[i]).name@.len() + 2 <= usize::MAX,
                tmp@.len() == k,
                start as int == if (k as int) * pers < n as int {
                    (k as int) * pers
                } else {
                    n as int
                },
                forall|j: int|
                    0 <= j < k ==> (#[trigger] tmp@[j]) as nat == widths_for(es, cols as nat)[j],
                forall|j: int|
                    0 <= j < start ==> display_len((#[trigger] es[j]).name@) <= es[j].name@.len(),
            decreases cols - k,
        {
            proof {
                assert(((k as int) + 1) * pers == (k as int) * pers + pers) by (nonlinear_arith);
            }
            if start < n {
                let end = if n - start > per {
                    start + per
                } else {
                    n
                };
                let m = chunk_max_exec(entries, start, end);
                tmp.push(m + 2);
                proof {
                    let ki = k as int;
                    let ni = n as int;
                    let hi = if (ki + 1) * pers < ni {
                        (ki + 1) * pers
                    } else {
                        ni
                    };
                    assert(end as int == hi);
                    assert(widths_for(es, cols as nat).len() == cols as nat);
                    assert(widths_for(es, cols as nat)[ki] == if ki * pers < ni {
                        chunk_max(es, ki * pers, if (ki + 1) * pers < ni {
                            (ki + 1) * pers
                        } else {
                            ni
                        }) + 2
                    } else {
                        0nat
                    });
                    assert(tmp@[ki] as nat == widths_for(es, cols as nat)[ki]);
                }
                start = end;
            } else {
                tmp.push(0);
                proof {
                    let ki = k as int;
                    let ni = n as int;
                    assert(ki * pers >= ni);
                    assert(widths_for(es, cols as nat).len() == cols as nat);
                    assert(widths_for(es, cols as nat)[ki] == if ki * pers < ni {
                        chunk_max(es, ki * pers, if (ki + 1) * pers < ni {
                            (ki + 1) * pers
                        } else {
                            ni
                        }) + 2
                    } else {
                        0nat
                    });
                    assert(tmp@[ki] as nat == widths_for(es, cols as nat)[ki]);
                }
            }
            k = k + 1;
        }
        proof {
            assert(tmp@.map_values(|w: usize| w as nat) =~= widths_for(es, cols as nat));
        }
        let total = sum_widths_exec(&tmp);
        if total > terminal_width as u128 {
            proof {
                assert(!fits(es, cols as nat, tw));
                if cols == 1 {
                    assert(grid_columns(es, tw) == 1);
                    assert(widths@.map_values(|w: usize| w as nat) =~= seq![max_name_len(es)]);
                    assert(widths@.map_values(|w: usize| w as nat) == grid_widths(es, tw));
                } else {
                    assert(chosen_from(es, tw, (cols - 1) as nat) == (cols - 1) as nat);
                    assert(grid_columns(es, tw) == (cols - 1) as nat);
                    assert(widths@.map_values(|w: usize| w as nat) == grid_widths(es, tw));
                }
            }
            break ;
        }
        columns = cols;
        widths = tmp;
        proof {
            if cols > 1 {
                assert(chosen_from(es, tw, (cols - 1) as nat) == chosen_from(es, tw, cols as nat));
            }
        }
        cols = cols + 1;
        proof {
            if cols == n + 1 {
                assert(chosen_from(es, tw, n as nat) == n as nat);
                assert(grid_columns(es, tw) == n as nat);
                assert(widths@.map_values(|w: usize| w as nat) == grid_widths(es, tw));
            }
        }
    }
    proof {
        if fits(es, 1, tw) {
            lemma_widths_for_cover(es, columns as nat);
        } else {
            assert(widths@.map_values(|w: usize| w as nat) =~= grid_widths(es, tw));
            assert forall|idx: int| 0 <= idx < es.len() implies {
                let per = ceil_div(es.len(), columns as nat) as int;
                &&& 0 <= idx / per < widths@.len()
                &&& display_len((#[trigger] es[idx]).name@) <= widths@[idx / per] as nat
            } by {
                assert(columns as nat == 1);
                let per = ceil_div(es.len(), columns as nat) as int;
                lemma_fundamental_div_mod(es.len() as int, 1);
                assert(per == es.len() as int);
                lemma_fundamental_div_mod_converse(idx, per, 0, idx);
                assert(idx / per == 0);
                assert(widths@.map_values(|w: usize| w as nat).len() == 1);
                assert(widths@.len() == 1);
                assert(widths@.map_values(|w: usize| w as nat)[0] == max_name_len(es));
                assert(widths@[0] as nat == max_name_len(es));
                lemma_max_name_len_ge(es, idx);
                assert(display_len(es[idx].name@) <= es[idx].name@.len());
            }
        }
    }
    (columns, widths)
}

/// One cell of a grid row: a style switch if needed, the name, then
/// spaces up to the column width.
pub open spec fn grid_cell(cur: Style, e: DisplayEntry, w: nat) -> Seq<u8> {
    emit_style(cur, e.style) + e.name@ + spaces((w - display_len(e.name@)) as nat)
}

/// One grid row from column `c` on: cells at indices `c * rows + r` until
/// the columns or the entries run out, then a reset and a newline.
pub open spec fn grid_row(
    es: Seq<DisplayEntry>,
    ws: Seq<nat>,
    rows: nat,
    r: int,
    c: int,
    cur: Style,
) -> Seq<u8>
    decreases ws.len() - c,
{
    if c < 0 || c >= ws.len() || c * (rows as int) + r >= es.len() {
        emit_style(cur, Style::Reset) + seq!['\n' as u8]
    } else {
        let e = es[c * (rows as int) + r];
        grid_cell(cur, e, ws[c]) + grid_row(es, ws, rows, r, c + 1, e.style)
    }
}

/// Grid rows `r` and following.
pub open spec fn grid_body(
    es: Seq<DisplayEntry>,
    ws: Seq<nat>,
    rows: nat,
    r: int,
    cur: Style,
) -> Seq<u8>
    decreases rows - r,
{
    if r < 0 || r >= rows {
        Seq::<u8>::empty()
    } else {
        grid_row(es, ws, rows, r, 0, cur) + grid_body(es, ws, rows, r + 1, Style::Reset)
    }
}

/// The whole grid listing for a terminal `tw` columns wide: nothing for
/// no entries, else the column-major grid of the chosen layout.
pub open spec fn grid_bytes(es: Seq<DisplayEntry>, tw: nat, cur: Style) -> Seq<u8> {
    if es.len() == 0 {
        Seq::<u8>::empty()
    } else {
        grid_body(es, grid_widths(es, tw), ceil_div(es.len(), grid_columns(es, tw)), 0, cur)
    }
}

/// Write one grid cell: the entry's name in its style, padded to `w`.
fn write_cell(out: &mut BufferedStdout, e: &DisplayEntry, w: usize)
    requires
        old(out).wf(),
        display_len(e.name@) <= w as nat,
    ensures
        final(out).wf(),
        final(out).stream() == old(out).stream() + grid_cell(old(out).style_state(), *e, w as nat),
        final(out).style_state() == e.style,
{
    out.style(e.style);
    out.write(&e.name);
    let dl = len_utf8(e.name.as_slice());
    let pad = w - dl;
    let ghost base = out.stream();
    let mut p: usize = 0;
    while p < pad
        invariant
            p <= pad,
            out.wf(),
            out.stream() == base + spaces(p as nat),
            out.style_state() == e.style,
        decreases pad - p,
    {
        out.push(' ' as u8);
        proof {
            assert(out.stream() =~= base + spaces((p + 1) as nat));
        }
        p = p + 1;
    }
    proof {
        assert(out.stream() =~= old(out).stream() + grid_cell(
            old(out).style_state(),
            *e,
            w as nat,
        ));
    }
}

/// Render the grid listing: choose the layout for the terminal width,
/// then write the entries in column-major order, row by row, each row
/// ending in a style reset and a newline.
#[verifier::rlimit(80)]
pub fn write_grid(entries: &Vec<DisplayEntry>, out: &mut BufferedStdout, terminal_width: usize)
    requires
        old(out).wf(),
        entries@.len() < usize::MAX,
        forall|i: int|
            0 <= i < entries@.len() ==> (#[trigger] entries@[i]).name@.len() + 2 <= usize::MAX,
    ensures
        final(out).wf(),
        final(out).stream() == old(out).stream() + grid_bytes(
            entries@,
            terminal_width as nat,
            old(out).style_state(),
        ),
        final(out).style_state() == if entries@.len() == 0 {
            old(out).style_state()
        } else {
            Style::Reset
        },
{
    let ghost es = entries@;
    let ghost tw = terminal_width as nat;
    let ghost cur0 = old(out).style_state();
    let ghost base = old(out).stream();
    let n = entries.len();
    if n == 0 {
        proof {
            assert(out.stream() =~= base + grid_bytes(es, tw, cur0));
        }
        return ;
    }
    let (columns, widths) = compute_layout(entries, terminal_width);
    let rows = n / columns + if n % columns != 0 {
        1
    } else {
        0
    };
    let ghost ws = widths@.map_values(|w: usize| w as nat);
    proof {
        assert(rows as nat == ceil_div(es.len(), columns as nat));
        lemma_chunk_index(es.len(), columns as nat, 0);
    }
    let wlen = widths.len();
    let mut r: usize = 0;
    while r < rows
        invariant
            out.wf(),
            r <= rows,
            n == es.len(),
            es == entries@,
            1 <= columns <= n,
            n < usize::MAX,
            rows as nat == ceil_div(es.len(), columns as nat),
            rows >= 1,
            wlen == widths@.len(),
            ws == widths@.map_values(|w: usize| w as nat),
            forall|idx: int|
                0 <= idx < es.len() ==> {
                    let per = ceil_div(es.len(), columns as nat) as int;
                    &&& 0 <= idx / per < ws.len()
                    &&& display_len((#[trigger] es[idx]).name@) <= ws[idx / per]
                },
            base + grid_body(es, ws, rows as nat, 0, cur0) == out.stream() + grid_body(
                es,
                ws,
                rows as nat,
                r as int,
                out.style_state(),
            ),
            out.style_state() == if r == 0 {
                cur0
            } else {
                Style::Reset
            },
        decreases rows - r,
    {
        let ghost rowbase = out.stream();
        let ghost rowcur = out.style_state();
        let mut c: usize = 0;
        while c < wlen
            invariant
                out.wf(),
                c <= wlen,
                r < rows,
                n == es.len(),
                es == entries@,
                1 <= columns <= n,
                n < usize::MAX,
                rows as nat == ceil_div(es.len(), columns as nat),
                wlen == widths@.len(),
                ws == widths@.map_values(|w: usize| w as nat),
                forall|idx: int|
                    0 <= idx < es.len() ==> {
                        let per = ceil_div(es.len(), columns as nat) as int;
                        &&& 0 <= idx / per < ws.len()
                        &&& display_len((#[trigger] es[idx]).name@) <= ws[idx / per]
                    },
                rowbase + grid_row(es, ws, rows as nat, r as int, 0, rowcur) == out.stream()
                    + grid_row(es, ws, rows as nat, r as int, c as int, out.style_state()),
            ensures
                out.wf(),
                n == es.len(),
                rowbase + grid_row(es, ws, rows as nat, r as int, 0, rowcur) == out.stream() + (
                emit_style(out.style_state(), Style::Reset) + seq!['\n' as u8]),
            decreases wlen - c,
        {
            proof {
                assert((c as u128) * (rows as u128) + (r as u128) < 0x100000000000000000000000000000000)
                    by (nonlinear_arith)
                    requires
                        c <= 0xffff_ffff_ffff_ffffu128,
                        rows <= 0xffff_ffff_ffff_ffffu128,
                        r <= 0xffff_ffff_ffff_ffffu128,
                ;
            }
            let idx128: u128 = (c as u128) * (rows as u128) + (r as u128);
            if idx128 >= n as u128 {
                proof {
                    assert((c as int) * (rows as int) + (r as int) >= es.len());
                    assert(grid_row(es, ws, rows as nat, r as int, c as int, out.style_state())
                        == emit_style(out.style_state(), Style::Reset) + seq!['\n' as u8]);
                }
                break ;
            }
            let idx = idx128 as usize;
            proof {
                assert(idx as int == (c as int) * (rows as int) + (r as int));
                let per = ceil_div(es.len(), columns as nat) as int;
                lemma_fundamental_div_mod_converse(idx as int, rows as int, c as int, r as int);
                assert(idx as int / per == c as int);
            }
            let e = &entries[idx];
            let w = widths[c];
            let ghost pre_cell = out.stream();
            let ghost cur_cell = out.style_state();
            write_cell(out, e, w);
            proof {
                assert(grid_row(es, ws, rows as nat, r as int, c as int, cur_cell) == grid_cell(
                    cur_cell,
                    es[idx as int],
                    ws[c as int],
                ) + grid_row(es, ws, rows as nat, r as int, c + 1 as int, es[idx as int].style));
                assert(rowbase + grid_row(es, ws, rows as nat, r as int, 0, rowcur) =~= out.stream()
                    + grid_row(es, ws, rows as nat, r as int, c + 1 as int, out.style_state()));
            }
            c = c + 1;
        }
        let ghost pre_nl = out.stream();
        let ghost cur_nl = out.style_state();
        out.style(Style::Reset);
        out.push('\n' as u8);
        proof {
            assert(out.stream() =~= rowbase + grid_row(es, ws, rows as nat, r as int, 0, rowcur));
            assert(grid_body(es, ws, rows as nat, r as int, if r == 0 {
                cur0
            } else {
                Style::Reset
            }) == grid_row(es, ws, rows as nat, r as int, 0, if r == 0 {
                cur0
            } else {
                Style::Reset
            }) + grid_body(es, ws, rows as nat, r + 1 as int, Style::Reset));
            assert(base + grid_body(es, ws, rows as nat, 0, cur0) =~= out.stream() + grid_body(
                es,
                ws,
                rows as nat,
                r + 1 as int,
                Style::Reset,
            ));
        }
        r = r + 1;
    }
    proof {
        assert(grid_body(es, ws, rows as nat, rows as int, out.style_state())
            == Seq::<u8>::empty());
        assert(out.stream() =~= base + grid_body(es, ws, rows as nat, 0, cur0));
        assert(ws =~= grid_widths(es, tw));
        assert(out.stream() =~= base + grid_bytes(es, tw, cur0));
    }
}

} // verus!
