use lsr::{
    compare_case_insensitive, compare_natural, compute_layout, format_i64, format_u64, len_utf8,
    month_abbr, open_error_message, write_details, write_grid, write_single_column,
    BufferedStdout, DisplayEntry, EntryMeta, LocalTime, NameOrder, OwnerNames, Style,
};

fn entry(name: &[u8], style: Style) -> DisplayEntry {
    DisplayEntry { name: name.to_vec(), style }
}

fn size_line(size: u64, dir: bool) -> Vec<u8> {
    lsr::fields::size_field_bytes(size, dir)
}

#[test]
fn size_small_right_justified() {
    assert_eq!(size_line(999, false), b" 999".to_vec());
    assert_eq!(size_line(0, false), b"   0".to_vec());
    assert_eq!(size_line(1000, false), b"1000".to_vec());
}

#[test]
fn size_kilobytes_rounded() {
    assert_eq!(size_line(1_500, false), b"1.5K".to_vec());
    assert_eq!(size_line(1_024, false), b"1.0K".to_vec());
    assert_eq!(size_line(999_999, false), b"976K".to_vec());
}

#[test]
fn size_megabytes_and_gigabytes() {
    // 2^30 itself falls in the megabyte branch: the gigabyte cutoff is strict.
    assert_eq!(size_line(1_073_741_824, false), b"102M".to_vec());
    assert_eq!(size_line(1_073_741_825, false), b"1.0G".to_vec());
    assert_eq!(size_line(2_000_000, false), b"1.9M".to_vec());
}

#[test]
fn size_directories_always_blank() {
    assert_eq!(size_line(0, true), b"    ".to_vec());
    assert_eq!(size_line(123_456_789, true), b"    ".to_vec());
}

#[test]
fn natural_order_numeric_runs() {
    assert_eq!(compare_natural(b"file2", b"file10"), NameOrder::Less);
    assert_eq!(compare_natural(b"file10", b"file2"), NameOrder::Greater);
    assert_eq!(compare_natural(b"a", b"b"), NameOrder::Less);
}

#[test]
fn natural_order_leading_zeros_equal() {
    assert_eq!(compare_natural(b"file01", b"file1"), NameOrder::Equal);
    assert_eq!(compare_natural(b"file01b", b"file1a"), NameOrder::Greater);
}

#[test]
fn natural_order_longer_run_wins() {
    assert_eq!(compare_natural(b"a10b", b"a9z"), NameOrder::Greater);
    assert_eq!(compare_natural(b"a010", b"a10"), NameOrder::Equal);
}

#[test]
fn case_insensitive_order() {
    assert_eq!(compare_case_insensitive(b"a.txt", b"B.txt"), NameOrder::Less);
    assert_eq!(compare_case_insensitive(b"B.txt", b"a.txt"), NameOrder::Greater);
    assert_eq!(compare_case_insensitive(b"ABC", b"abc"), NameOrder::Equal);
    assert_eq!(compare_case_insensitive(b"ab", b"abc"), NameOrder::Less);
}

#[test]
fn display_width_ascii_and_unicode() {
    assert_eq!(len_utf8(b"abc"), 3);
    assert_eq!(len_utf8("é".as_bytes()), 1);
    assert_eq!(len_utf8("héllo".as_bytes()), 5);
}

#[test]
fn month_abbreviations() {
    assert_eq!(&month_abbr(0), b"Jan");
    assert_eq!(&month_abbr(9), b"Oct");
    assert_eq!(&month_abbr(11), b"Dec");
    assert_eq!(&month_abbr(12), b"???");
}

#[test]
fn decimal_formatting() {
    assert_eq!(format_u64(0), b"0".to_vec());
    assert_eq!(format_u64(90210), b"90210".to_vec());
    assert_eq!(format_i64(-5), b"-5".to_vec());
    assert_eq!(format_i64(2026), b"2026".to_vec());
}

#[test]
fn buffer_flushes_exactly_when_full() {
    let mut out = BufferedStdout::new();
    for _ in 0..4096 {
        out.push(b'x');
    }
    assert_eq!(out.flushes(), 0);
    out.push(b'y');
    assert_eq!(out.flushes(), 1);
    let bytes = out.take_all();
    assert_eq!(bytes.len(), 4097);
    assert_eq!(bytes[4096], b'y');
}

#[test]
fn buffer_write_across_capacity() {
    let mut out = BufferedStdout::new();
    let chunk = vec![b'a'; 3000];
    out.write(&chunk);
    assert_eq!(out.flushes(), 0);
    out.write(&chunk);
    assert_eq!(out.flushes(), 1);
    assert_eq!(out.take_all().len(), 6000);
}

#[test]
fn style_deduplicated() {
    let mut out = BufferedStdout::new();
    out.style(Style::Green);
    out.style(Style::Green);
    out.push(b'z');
    assert_eq!(out.take_all(), b"\x1b[32mz".to_vec());

    let mut out2 = BufferedStdout::new();
    out2.style(Style::Reset);
    out2.push(b'q');
    assert_eq!(out2.take_all(), b"q".to_vec());
}

#[test]
fn single_column_names_only() {
    let entries = vec![entry(b"alpha", Style::White), entry(b"beta", Style::BlueBold)];
    let mut out = BufferedStdout::new();
    write_single_column(&entries, &mut out);
    assert_eq!(out.take_all(), b"alpha\nbeta\n".to_vec());
}

#[test]
fn grid_layout_ten_ones_width_twenty() {
    let names: &[&[u8]] = &[b"a", b"b", b"c", b"d", b"e", b"f", b"g", b"h", b"i", b"j"];
    let entries: Vec<DisplayEntry> = names.iter().map(|n| entry(n, Style::Reset)).collect();
    let (columns, widths) = compute_layout(&entries, 20);
    assert_eq!(columns, 9);
    assert_eq!(widths, vec![3, 3, 3, 3, 3, 0, 0, 0, 0]);

    let mut out = BufferedStdout::new();
    write_grid(&entries, &mut out, 20);
    // rows = ceil(10 / 9) = 2; entry of column c, row r sits at c * rows + r.
    assert_eq!(out.take_all(), b"a  c  e  g  i  \nb  d  f  h  j  \n".to_vec());
}

#[test]
fn grid_empty_writes_nothing() {
    let entries: Vec<DisplayEntry> = Vec::new();
    let mut out = BufferedStdout::new();
    write_grid(&entries, &mut out, 80);
    assert_eq!(out.take_all(), Vec::<u8>::new());
}

#[test]
fn grid_too_narrow_keeps_one_column() {
    let entries = vec![entry(b"abcdefgh", Style::Reset), entry(b"xy", Style::Reset)];
    // One column needs 8 + 2 = 10 > 5: the fallback single column keeps the
    // longest raw name length as its width.
    let (columns, widths) = compute_layout(&entries, 5);
    assert_eq!(columns, 1);
    assert_eq!(widths, vec![8]);
}

#[test]
fn owner_cache_longest_and_fallback() {
    let mut owners = OwnerNames::new();
    owners.add(0, Some(b"root".to_vec()));
    owners.add(1000, Some(b"alice".to_vec()));
    owners.add(0, Some(b"ignored".to_vec()));
    owners.add(42, None);
    assert_eq!(owners.longest(), 5);
    assert_eq!(owners.lookup(0), b"root".to_vec());
    assert_eq!(owners.lookup(1000), b"alice".to_vec());
    assert_eq!(owners.lookup(42), b"42".to_vec());
    assert_eq!(owners.lookup(7), Vec::<u8>::new());
}

#[test]
fn details_one_line_exact() {
    let entries = vec![entry(b"x", Style::White)];
    let metas = vec![EntryMeta { mode: 0o100644, size: 100, uid: 0, mtime: 0 }];
    let times = vec![LocalTime { year: 120, month: 0, day: 1, hour: 0, minute: 0 }];
    let mut owners = OwnerNames::new();
    owners.add(0, Some(b"root".to_vec()));
    let mut out = BufferedStdout::new();
    write_details(&entries, &metas, &times, &owners, 120, &mut out);
    let expected: &[u8] = b"\x1b[37m.\x1b[33;1mr\x1b[31;1mw\x1b[90m-\x1b[33mr\x1b[90m--\x1b[33mr\x1b[90m-- \x1b[32;1m 100 \x1b[33;1mroot \x1b[34mJan  1  0:00 \x1b[37mx\x1b[0m\n";
    assert_eq!(out.take_all(), expected.to_vec());
}

#[test]
fn details_owner_padding() {
    let entries = vec![entry(b"one", Style::White), entry(b"two", Style::White)];
    let metas = vec![
        EntryMeta { mode: 0o100644, size: 1, uid: 0, mtime: 0 },
        EntryMeta { mode: 0o100644, size: 1, uid: 1000, mtime: 0 },
    ];
    let times = vec![
        LocalTime { year: 120, month: 0, day: 1, hour: 0, minute: 0 },
        LocalTime { year: 120, month: 0, day: 1, hour: 0, minute: 0 },
    ];
    let mut owners = OwnerNames::new();
    owners.add(0, Some(b"root".to_vec()));
    owners.add(1000, Some(b"alice".to_vec()));
    let mut out = BufferedStdout::new();
    write_details(&entries, &metas, &times, &owners, 120, &mut out);
    let bytes = out.take_all();
    let text: Vec<u8> = bytes.clone();
    // "root" is padded with one extra space relative to "alice" before the
    // single separator space.
    assert!(text.windows(6).any(|w| w == b"root  "));
    assert!(text.windows(6).any(|w| w == b"alice "));
    assert!(!text.windows(7).any(|w| w == b"alice  "));
}

#[test]
fn details_year_field_for_old_files() {
    let entries = vec![entry(b"x", Style::White)];
    let metas = vec![EntryMeta { mode: 0o040755, size: 4096, uid: 0, mtime: 0 }];
    let times = vec![LocalTime { year: 119, month: 9, day: 28, hour: 13, minute: 5 }];
    let mut owners = OwnerNames::new();
    owners.add(0, Some(b"root".to_vec()));
    let mut out = BufferedStdout::new();
    write_details(&entries, &metas, &times, &owners, 120, &mut out);
    let bytes = out.take_all();
    // Directory: `d` type char, four-space size field, and " 2019" instead
    // of a clock.
    assert!(bytes.windows(5).any(|w| w == b" 2019"));
    assert!(bytes.windows(6).any(|w| w == b"Oct 28"));
    assert!(bytes.starts_with(b"\x1b[34;1md"));
    assert!(bytes.windows(11).any(|w| w == b"\x1b[32;1m    "));
}

#[test]
fn sort_natural_and_case_insensitive() {
    let mut es = vec![
        entry(b"file10", Style::White),
        entry(b"File2", Style::White),
        entry(b"a", Style::White),
    ];
    lsr::sort_entries(&mut es, true);
    let names: Vec<&[u8]> = es.iter().map(|e| e.name.as_slice()).collect();
    assert_eq!(names, vec![b"File2".as_slice(), b"a".as_slice(), b"file10".as_slice()]);

    let mut es2 = vec![
        entry(b"file10", Style::White),
        entry(b"File2", Style::White),
        entry(b"a", Style::White),
    ];
    lsr::sort_entries(&mut es2, false);
    let names2: Vec<&[u8]> = es2.iter().map(|e| e.name.as_slice()).collect();
    assert_eq!(names2, vec![b"a".as_slice(), b"file10".as_slice(), b"File2".as_slice()]);
}

#[test]
fn open_error_messages() {
    assert_eq!(open_error_message(2), Some("No such file or directory"));
    assert_eq!(open_error_message(13), Some("Permission denied"));
    assert_eq!(open_error_message(20), Some("Not a directory"));
    assert_eq!(open_error_message(5), None);
}

#[test]
fn permission_column_bit_for_bit() {
    // 0o777 regular file: every letter in its color; 0 mode: all dashes.
    let mut pairs: Vec<(Style, u8)> = Vec::new();
    lsr::fields::push_perm_pairs(&mut pairs, 0o100777);
    let chars: Vec<u8> = pairs.iter().map(|p| p.1).collect();
    assert_eq!(chars, b".rwxrwxrwx".to_vec());
    assert_eq!(pairs[1].0, Style::YellowBold);
    assert_eq!(pairs[2].0, Style::RedBold);
    assert_eq!(pairs[3].0, Style::GreenBold);
    assert_eq!(pairs[4].0, Style::Yellow);
    assert_eq!(pairs[9].0, Style::Green);

    let mut dashes: Vec<(Style, u8)> = Vec::new();
    lsr::fields::push_perm_pairs(&mut dashes, 0);
    let dash_chars: Vec<u8> = dashes.iter().map(|p| p.1).collect();
    assert_eq!(dash_chars, b".---------".to_vec());
    assert!(dashes.iter().skip(1).all(|p| p.0 == Style::Gray));

    let mut dir_pairs: Vec<(Style, u8)> = Vec::new();
    lsr::fields::push_perm_pairs(&mut dir_pairs, 0o040000);
    assert_eq!(dir_pairs[0], (Style::BlueBold, b'd'));
    let mut link_pairs: Vec<(Style, u8)> = Vec::new();
    lsr::fields::push_perm_pairs(&mut link_pairs, 0o120000);
    assert_eq!(link_pairs[0], (Style::Cyan, b'l'));
}
