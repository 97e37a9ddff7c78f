//! The detailed and single-column render modes.

use vstd::prelude::*;

use crate::buffer::BufferedStdout;
use crate::entry::{lookup_name, DisplayEntry, EntryMeta, OwnerNames};
use crate::fields::{
    is_dir_mode, perm_items, push_perm_pairs, push_run, push_spaces, size_field, size_field_bytes,
    spaces, time_field, time_field_bytes, LocalTime,
};
use crate::style::{
    emit_style, end_style, lemma_styled_bytes_concat, lemma_styled_bytes_run, styled_bytes,
    with_style, Style,
};

verus! {

/// The styled characters of a detail line up to and including the
/// timestamp column: the permission column and its separator space, the
/// size column in bold green, the owner column in bold yellow padded to
/// `pad` extra spaces, and the timestamp column in blue, each followed by
/// a separator space in the same style.
pub open spec fn fixed_items(
    m: EntryMeta,
    owner: Seq<u8>,
    pad: nat,
    t: LocalTime,
    year: i32,
) -> Seq<(Style, u8)> {
    perm_items(m.mode) + with_style(perm_items(m.mode).last().0, seq![' ' as u8]) + with_style(
        Style::GreenBold,
        size_field(m.size, is_dir_mode(m.mode)) + seq![' ' as u8],
    ) + with_style(Style::YellowBold, owner + spaces(pad) + seq![' ' as u8]) + with_style(
        Style::Blue,
        time_field(t, year) + seq![' ' as u8],
    )
}

/// One detail line, written from active style `cur`: the fixed columns,
/// then the entry name in its own style, then a reset and a newline.
pub open spec fn line_bytes(
    cur: Style,
    e: DisplayEntry,
    m: EntryMeta,
    t: LocalTime,
    owner: Seq<u8>,
    pad: nat,
    year: i32,
) -> Seq<u8> {
    styled_bytes(cur, fixed_items(m, owner, pad, t, year)) + emit_style(Style::Blue, e.style)
        + e.name@ + emit_style(e.style, Style::Reset) + seq!['\n' as u8]
}

/// After the fixed columns the active style is blue (of the timestamp).
proof fn lemma_fixed_items_end(m: EntryMeta, owner: Seq<u8>, pad: nat, t: LocalTime, year: i32, cur: Style)
    ensures
        end_style(cur, fixed_items(m, owner, pad, t, year)) == Style::Blue,
{
    let a = perm_items(m.mode) + with_style(perm_items(m.mode).last().0, seq![' ' as u8])
        + with_style(Style::GreenBold, size_field(m.size, is_dir_mode(m.mode)) + seq![' ' as u8])
        + with_style(Style::YellowBold, owner + spaces(pad) + seq![' ' as u8]);
    let b = with_style(Style::Blue, time_field(t, year) + seq![' ' as u8]);
    assert(fixed_items(m, owner, pad, t, year) =~= a + b);
    lemma_styled_bytes_concat(cur, a, b);
    assert((time_field(t, year) + seq![' ' as u8]).len() > 0);
    lemma_styled_bytes_run(end_style(cur, a), Style::Blue, time_field(t, year) + seq![' ' as u8]);
}

/// The whole detailed listing: one line per entry, each line starting
/// from the reset style the previous one ended in.
pub open spec fn details_bytes(
    cur: Style,
    es: Seq<DisplayEntry>,
    ms: Seq<EntryMeta>,
    ts: Seq<LocalTime>,
    table: Seq<(u32, Seq<u8>)>,
    longest: nat,
    year: i32,
) -> Seq<u8>
    decreases es.len(),
{
    if es.len() == 0 {
        Seq::<u8>::empty()
    } else {
        let owner = lookup_name(table, ms[0].uid);
        let pad = (longest - owner.len()) as nat;
        line_bytes(cur, es[0], ms[0], ts[0], owner, pad, year) + details_bytes(
            Style::Reset,
            es.drop_first(),
            ms.drop_first(),
            ts.drop_first(),
            table,
            longest,
            year,
        )
    }
}

/// Render the detailed listing: for every entry one line of permission,
/// size, owner, timestamp and name columns, exactly as `details_bytes`
/// lays them out over the metadata, the owner cache, and the clock's
/// calendar fields.
#[verifier::rlimit(80)]
pub fn write_details(
    entries: &Vec<DisplayEntry>,
    metas: &Vec<EntryMeta>,
    times: &Vec<LocalTime>,
    owners: &OwnerNames,
    current_year: i32,
    out: &mut BufferedStdout,
)
    requires
        old(out).wf(),
        owners.wf(),
        entries@.len() == metas@.len(),
        entries@.len() == times@.len(),
        forall|i: int|
            0 <= i < times@.len() && (#[trigger] times@[i]).year != current_year ==> times@[i].year
                <= i32::MAX - 1900,
    ensures
        final(out).wf(),
        final(out).stream() == old(out).stream() + details_bytes(
            old(out).style_state(),
            entries@,
            metas@,
            times@,
            owners.table(),
            owners.longest_len(),
            current_year,
        ),
        final(out).style_state() == if entries@.len() == 0 {
            old(out).style_state()
        } else {
            Style::Reset
        },
{
    let ghost cur0 = old(out).style_state();
    let ghost base = old(out).stream();
    let ghost table = owners.table();
    let ghost longest = owners.longest_len();
    let n = entries.len();
    let mut i: usize = 0;
    proof {
        assert(entries@.skip(0) =~= entries@);
        assert(metas@.skip(0) =~= metas@);
        assert(times@.skip(0) =~= times@);
    }
    while i < n
        invariant
            out.wf(),
            owners.wf(),
            i <= n,
            n == entries@.len(),
            n == metas@.len(),
            n == times@.len(),
            table == owners.table(),
            longest == owners.longest_len(),
            forall|k: int|
                0 <= k < times@.len() && (#[trigger] times@[k]).year != current_year ==> times@[
                    k
                ].year <= i32::MAX - 1900,
            base + details_bytes(cur0, entries@, metas@, times@, table, longest, current_year)
                == out.stream() + details_bytes(
                out.style_state(),
                entries@.skip(i as int),
                metas@.skip(i as int),
                times@.skip(i as int),
                table,
                longest,
                current_year,
            ),
            out.style_state() == if i == 0 {
                cur0
            } else {
                Style::Reset
            },
        decreases n - i,
    {
        let ghost cur = out.style_state();
        let ghost stream0 = out.stream();
        let e = &entries[i];
        let m = &metas[i];
        let t = &times[i];
        let owner = owners.lookup(m.uid);
        let pad = owners.longest() - owner.len();

        let mut pairs: Vec<(Style, u8)> = Vec::new();
        push_perm_pairs(&mut pairs, m.mode);
        let last_style = if m.mode & 1 != 0 {
            Style::Green
        } else {
            Style::Gray
        };
        pairs.push((last_style, ' ' as u8));
        let mut size_run = size_field_bytes(m.size, m.mode & 0xF000 == 0x4000);
        size_run.push(' ' as u8);
        push_run(&mut pairs, Style::GreenBold, size_run.as_slice());
        let mut owner_run = owner;
        push_spaces(&mut owner_run, pad);
        owner_run.push(' ' as u8);
        push_run(&mut pairs, Style::YellowBold, owner_run.as_slice());
        let mut time_run = time_field_bytes(t, current_year);
        time_run.push(' ' as u8);
        push_run(&mut pairs, Style::Blue, time_run.as_slice());

        let ghost ow = lookup_name(table, metas@[i as int].uid);
        let ghost padg = (longest - ow.len()) as nat;
        proof {
            assert(pairs@ =~= fixed_items(
                metas@[i as int],
                ow,
                padg,
                times@[i as int],
                current_year,
            ));
        }
        out.write_styled(&pairs);
        proof {
            lemma_fixed_items_end(metas@[i as int], ow, padg, times@[i as int], current_year, cur);
        }
        out.style(e.style);
        out.write(&e.name);
        out.style(Style::Reset);
        out.push('\n' as u8);
        proof {
            assert(out.stream() =~= stream0 + line_bytes(
                cur,
                entries@[i as int],
                metas@[i as int],
                times@[i as int],
                ow,
                padg,
                current_year,
            ));
            let esk = entries@.skip(i as int);
            let msk = metas@.skip(i as int);
            let tsk = times@.skip(i as int);
            assert(esk[0] == entries@[i as int]);
            assert(msk[0] == metas@[i as int]);
            assert(tsk[0] == times@[i as int]);
            assert(esk.drop_first() =~= entries@.skip(i + 1 as int));
            assert(msk.drop_first() =~= metas@.skip(i + 1 as int));
            assert(tsk.drop_first() =~= times@.skip(i + 1 as int));
            assert(details_bytes(cur, esk, msk, tsk, table, longest, current_year) == line_bytes(
                cur,
                entries@[i as int],
                metas@[i as int],
                times@[i as int],
                ow,
                padg,
                current_year,
            ) + details_bytes(
                Style::Reset,
                entries@.skip(i + 1 as int),
                metas@.skip(i + 1 as int),
                times@.skip(i + 1 as int),
                table,
                longest,
                current_year,
            ));
            vstd::seq_lib::lemma_concat_associative(
                stream0,
                line_bytes(
                    cur,
                    entries@[i as int],
                    metas@[i as int],
                    times@[i as int],
                    ow,
                    padg,
                    current_year,
                ),
                details_bytes(
                    Style::Reset,
                    entries@.skip(i + 1 as int),
                    metas@.skip(i + 1 as int),
                    times@.skip(i + 1 as int),
                    table,
                    longest,
                    current_year,
                ),
            );
        }
        i = i + 1;
    }
    proof {
        assert(entries@.skip(n as int).len() == 0);
        assert(details_bytes(
            out.style_state(),
            entries@.skip(n as int),
            metas@.skip(n as int),
            times@.skip(n as int),
            table,
            longest,
            current_year,
        ) == Seq::<u8>::empty());
        assert(base + details_bytes(cur0, entries@, metas@, times@, table, longest, current_year)
            =~= out.stream());
    }
}

/// The short message shown instead of a raw error code for the three
/// recognized directory-open failures: absent path, denied permission,
/// and a path that is not a directory. Any other code is propagated raw.
pub open spec fn open_error_text(code: i32) -> Option<Seq<char>> {
    if code == 2 {
        Option::Some("No such file or directory"@)
    } else if code == 13 {
        Option::Some("Permission denied"@)
    } else if code == 20 {
        Option::Some("Not a directory"@)
    } else {
        Option::None
    }
}

/// The short human-readable message for a recognized directory-open
/// error code, or none for a code that is propagated raw.
pub fn open_error_message(code: i32) -> (r: Option<&'static str>)
    ensures
        match r {
            Option::Some(m) => open_error_text(code) == Option::Some(m@),
            Option::None => open_error_text(code) is None,
        },
{
    if code == 2 {
        Option::Some("No such file or directory")
    } else if code == 13 {
        Option::Some("Permission denied")
    } else if code == 20 {
        Option::Some("Not a directory")
    } else {
        Option::None
    }
}

/// The single-column listing: every entry name on its own line, no
/// styling and no metadata.
pub open spec fn single_column_bytes(es: Seq<DisplayEntry>) -> Seq<u8>
    decreases es.len(),
{
    if es.len() == 0 {
        Seq::<u8>::empty()
    } else {
        es[0].name@ + seq!['\n' as u8] + single_column_bytes(es.drop_first())
    }
}

/// Render the single-column listing: names only, one per line.
pub fn write_single_column(entries: &Vec<DisplayEntry>, out: &mut BufferedStdout)
    requires
        old(out).wf(),
    ensures
        final(out).wf(),
        final(out).stream() == old(out).stream() + single_column_bytes(entries@),
        final(out).style_state() == old(out).style_state(),
{
    let ghost base = old(out).stream();
    let n = entries.len();
    let mut i: usize = 0;
    proof {
        assert(entries@.skip(0) =~= entries@);
    }
    while i < n
        invariant
            out.wf(),
            i <= n,
            n == entries@.len(),
            out.style_state() == old(out).style_state(),
            base + single_column_bytes(entries@) == out.stream() + single_column_bytes(
                entries@.skip(i as int),
            ),
        decreases n - i,
    {
        let ghost stream0 = out.stream();
        out.write(&entries[i].name);
        out.push('\n' as u8);
        proof {
            let esk = entries@.skip(i as int);
            assert(esk[0] == entries@[i as int]);
            assert(esk.drop_first() =~= entries@.skip(i + 1 as int));
            assert(out.stream() =~= stream0 + (entries@[i as int].name@ + seq!['\n' as u8]));
            vstd::seq_lib::lemma_concat_associative(
                stream0,
                entries@[i as int].name@ + seq!['\n' as u8],
                single_column_bytes(entries@.skip(i + 1 as int)),
            );
        }
        i = i + 1;
    }
    proof {
        assert(entries@.skip(n as int).len() == 0);
        assert(base + single_column_bytes(entries@) =~= out.stream());
    }
}

} // verus!
