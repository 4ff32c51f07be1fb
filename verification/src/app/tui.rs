use crate::app::state::bin::{BinEntry, BinState};
use crate::app::state::tree::{size_of, size_sum, TreeState};
use crate::app::state::State;
use crate::fs::entry::{FileTime, FsEntry};
use crate::fs::path::{FsPath, PathView};
use vstd::prelude::*;

verus! {

/// The smallest terminal, as width and height, that shows the tree panel.
pub const MIN_TREE: (u16, u16) = (70, 10);

/// The smallest terminal that shows the pie panel.
pub const MIN_PIE: (u16, u16) = (20, 10);

/// The smallest terminal that shows the bin panel.
pub const MIN_BIN: (u16, u16) = (45, 10);

/// How many entries get a slice of their own in the pie; the others share
/// one.
pub const PIE_SLICES: usize = 7;

/// The larger of two numbers.
pub open spec fn max_u16(a: u16, b: u16) -> u16 {
    if a >= b {
        a
    } else {
        b
    }
}

/// The smallest terminal that shows the panels chosen: the tree on the
/// left, the pie above the bin on the right.
pub open spec fn spec_min_size(show_tree: bool, show_pie: bool, show_bin: bool) -> (u16, u16) {
    let pie_w: u16 = if show_pie {
        MIN_PIE.0
    } else {
        0
    };
    let bin_w: u16 = if show_bin {
        MIN_BIN.0
    } else {
        0
    };
    let right_h = (if show_pie {
        MIN_PIE.1
    } else {
        0u16
    }) + (if show_bin {
        MIN_BIN.1
    } else {
        0u16
    });
    let tree_w: u16 = if show_tree {
        MIN_TREE.0
    } else {
        0
    };
    ((tree_w + max_u16(pie_w, bin_w)) as u16, max_u16(MIN_TREE.1, right_h as u16))
}

/// The smallest terminal, as width and height, that shows the panels
/// chosen.
pub fn min_size(show_tree: bool, show_pie: bool, show_bin: bool) -> (r: (u16, u16))
    ensures
        r == spec_min_size(show_tree, show_pie, show_bin),
{
    let mut right_w: u16 = 0;
    let mut right_h: u16 = 0;
    if show_pie {
        right_w = if right_w >= MIN_PIE.0 {
            right_w
        } else {
            MIN_PIE.0
        };
        right_h = right_h + MIN_PIE.1;
    }
    if show_bin {
        right_w = if right_w >= MIN_BIN.0 {
            right_w
        } else {
            MIN_BIN.0
        };
        right_h = right_h + MIN_BIN.1;
    }
    let tree_w: u16 = if show_tree {
        MIN_TREE.0
    } else {
        0
    };
    let h = if MIN_TREE.1 >= right_h {
        MIN_TREE.1
    } else {
        right_h
    };
    (tree_w + right_w, h)
}

/// Showing more panels never needs a smaller terminal.
pub proof fn lemma_min_size_monotonic(t1: bool, p1: bool, b1: bool, t2: bool, p2: bool, b2: bool)
    requires
        t1 ==> t2,
        p1 ==> p2,
        b1 ==> b2,
    ensures
        spec_min_size(t1, p1, b1).0 <= spec_min_size(t2, p2, b2).0,
        spec_min_size(t1, p1, b1).1 <= spec_min_size(t2, p2, b2).1,
{
}

/// Names joined by a separator.
pub open spec fn joined_names(parts: Seq<Seq<char>>, sep: char) -> Seq<char>
    decreases parts.len(),
{
    if parts.len() == 0 {
        Seq::empty()
    } else if parts.len() == 1 {
        parts[0]
    } else {
        joined_names(parts.drop_last(), sep) + seq![sep] + parts.last()
    }
}

/// What a path is written with before its names: the drive prefix, then the
/// separator when the path starts at the root.
pub open spec fn root_text(p: PathView, sep: char) -> Seq<char> {
    if p.absolute {
        p.prefix().push(sep)
    } else {
        p.prefix()
    }
}

/// How a path is written: its root text, then its names joined by the
/// separator.
pub open spec fn display_path(p: PathView, sep: char) -> Seq<char> {
    root_text(p, sep) + joined_names(p.names(), sep)
}

/// The text that stands for the names left out of a shortened path.
pub open spec fn elision(sep: char) -> Seq<char> {
    seq![sep, '.', '.', '.', sep]
}

/// A path as the bin shows it, with the given separator: a path of more than
/// four names after its prefix and root is cut to the first two and the last
/// two around `...`; a directory ends with the separator.
pub open spec fn spec_shorten_path(p: PathView, is_dir: bool, sep: char) -> Seq<char> {
    let names = p.names();
    let n = names.len();
    let s = if n > 4 {
        root_text(p, sep) + joined_names(names.take(2), sep) + elision(sep) + joined_names(
            names.skip(n - 2),
            sep,
        )
    } else {
        display_path(p, sep)
    };
    dir_marked(s, is_dir, sep)
}

/// A directory's text ends with the separator: one is added where it is
/// missing.
pub open spec fn dir_marked(s: Seq<char>, is_dir: bool, sep: char) -> Seq<char> {
    if is_dir && !(s.len() > 0 && s.last() == sep) {
        s.push(sep)
    } else {
        s
    }
}

/// The path that a shortened path names: more than four names are cut to
/// the first two, a `...` component and the last two.
pub open spec fn shortened_view(p: PathView) -> PathView {
    let names = p.names();
    let n = names.len();
    if n > 4 {
        let kept = names.take(2).push(seq!['.', '.', '.']) + names.skip(n - 2);
        PathView {
            prefixed: p.prefixed,
            absolute: p.absolute,
            parts: if p.prefixed && p.parts.len() > 0 {
                seq![p.parts[0]] + kept
            } else {
                kept
            },
        }
    } else {
        p
    }
}

proof fn lemma_names_of(p: PathView, q: PathView, kept: Seq<Seq<char>>)
    requires
        !(p.prefixed && p.parts.len() == 0),
        q.prefixed == p.prefixed,
        q.parts == (if p.prefixed && p.parts.len() > 0 {
            seq![p.parts[0]] + kept
        } else {
            kept
        }),
    ensures
        q.names() == kept,
        q.prefix() == p.prefix(),
{
    if p.prefixed && p.parts.len() > 0 {
        assert(q.parts.skip(1) =~= kept);
    }
}

/// Names joined around one more name.
proof fn lemma_joined_push(parts: Seq<Seq<char>>, x: Seq<char>, sep: char)
    requires
        parts.len() > 0,
    ensures
        joined_names(parts.push(x), sep) == joined_names(parts, sep) + seq![sep] + x,
{
    assert(parts.push(x).drop_last() =~= parts);
}

/// Names joined, split after the first `k`.
proof fn lemma_joined_concat(a: Seq<Seq<char>>, b: Seq<Seq<char>>, sep: char)
    requires
        a.len() > 0,
        b.len() > 0,
    ensures
        joined_names(a + b, sep) == joined_names(a, sep) + seq![sep] + joined_names(b, sep),
    decreases b.len(),
{
    if b.len() == 1 {
        assert((a + b).drop_last() =~= a);
        assert(joined_names(b, sep) == b[0]);
    } else {
        lemma_joined_concat(a, b.drop_last(), sep);
        assert((a + b).drop_last() =~= a + b.drop_last());
        assert((a + b).last() == b.last());
        assert(joined_names(a + b, sep) =~= joined_names(a, sep) + seq![sep] + joined_names(b, sep));
    }
}

/// A shortened path is the path that `shortened_view` gives, written out;
/// and shortening that path again gives the same text.
pub proof fn lemma_shorten_idempotent(p: PathView, is_dir: bool, sep: char)
    ensures
        spec_shorten_path(p, is_dir, sep) == dir_marked(display_path(shortened_view(p), sep), is_dir, sep),
        spec_shorten_path(shortened_view(p), is_dir, sep) == spec_shorten_path(p, is_dir, sep),
{
    let names = p.names();
    let n = names.len();
    if n > 4 {
        let q = shortened_view(p);
        let dots = seq!['.', '.', '.'];
        let kept = names.take(2).push(dots) + names.skip(n - 2);
        lemma_names_of(p, q, kept);
        assert(kept.take(2) =~= names.take(2));
        assert(kept.skip(5 - 2) =~= names.skip(n - 2));
        lemma_joined_push(names.take(2), dots, sep);
        lemma_joined_concat(names.take(2).push(dots), names.skip(n - 2), sep);
        assert(display_path(q, sep) =~= root_text(p, sep) + joined_names(names.take(2), sep)
            + elision(sep) + joined_names(names.skip(n - 2), sep));
    }
}

/// Appends names joined by the separator to a string.
fn push_joined(out: &mut String, parts: &Vec<String>, from: usize, to: usize, sep: char)
    requires
        from <= to <= parts@.len(),
    ensures
        final(out)@ == old(out)@ + joined_names(
            parts@.subrange(from as int, to as int).map_values(|s: String| s@),
            sep,
        ),
{
    let ghost names = parts@.map_values(|s: String| s@);
    let mut i: usize = from;
    proof {
        assert(names.subrange(from as int, from as int) =~= Seq::<Seq<char>>::empty());
        assert(parts@.subrange(from as int, from as int).map_values(|s: String| s@) =~= names.subrange(
            from as int,
            from as int,
        ));
        assert(old(out)@ + Seq::<char>::empty() =~= old(out)@);
    }
    while i < to
        invariant
            names == parts@.map_values(|s: String| s@),
            from <= i <= to <= parts@.len(),
            out@ == old(out)@ + joined_names(names.subrange(from as int, i as int), sep),
        decreases to - i,
    {
        let ghost prev = names.subrange(from as int, i as int);
        let ghost next = names.subrange(from as int, i + 1);
        proof {
            assert(next.drop_last() =~= prev);
            assert(next.last() == parts@[i as int]@);
        }
        if i > from {
            out.push(sep);
            out.append(parts[i].as_str());
            proof {
                assert(out@ =~= old(out)@ + (joined_names(prev, sep) + seq![sep] + parts@[i as int]@));
            }
        } else {
            out.append(parts[i].as_str());
            proof {
                assert(prev =~= Seq::<Seq<char>>::empty());
                assert(next.len() == 1);
                assert(out@ =~= old(out)@ + parts@[i as int]@);
            }
        }
        i = i + 1;
    }
    proof {
        assert(parts@.subrange(from as int, to as int).map_values(|s: String| s@) =~= names.subrange(
            from as int,
            to as int,
        ));
    }
}

/// Whether a string ends with the separator.
fn ends_with_separator(s: &String, sep: char) -> (r: bool)
    ensures
        r == (s@.len() > 0 && s@.last() == sep),
{
    let t = s.as_str();
    let n = t.unicode_len();
    n > 0 && t.get_char(n - 1) == sep
}

/// `String::push`: appends one character.
pub assume_specification[ String::push ](s: &mut String, ch: char)
    ensures
        final(s)@ == old(s)@.push(ch),
;

/// `std::path::MAIN_SEPARATOR`, the separator of path components on this
/// platform. Its documentation gives `/` on Unix and `\` on Windows as
/// examples; nothing is stated of the value here.
#[verifier::external_body]
fn main_separator() -> (r: char) {
    std::path::MAIN_SEPARATOR
}

/// A path as the bin shows it, written with the given separator: more than
/// four names after the prefix and root are cut to the first two and the
/// last two around `...`; a directory ends with the separator.
pub fn shorten_path_with(path: &FsPath, is_dir: bool, sep: char) -> (r: String)
    ensures
        r@ == spec_shorten_path(path@, is_dir, sep),
{
    let parts = path.parts();
    let ghost all = path@.parts;
    let k: usize = if path.is_prefixed() && parts.len() > 0 {
        1
    } else {
        0
    };
    let total = parts.len();
    let n = total - k;
    let ghost names = path@.names();
    proof {
        assert(parts@.map_values(|s: String| s@) == all);
        assert(parts@.subrange(k as int, total as int).map_values(|s: String| s@) =~= names);
    }
    let mut result = String::new();
    if k == 1 {
        result.append(parts[0].as_str());
    }
    if path.is_absolute() {
        result.push(sep);
    }
    proof {
        assert(result@ =~= root_text(path@, sep));
    }
    if n > 4 {
        push_joined(&mut result, parts, k, k + 2, sep);
        result.push(sep);
        proof {
            reveal_strlit("...");
        }
        result.append("...");
        result.push(sep);
        push_joined(&mut result, parts, total - 2, total, sep);
        proof {
            assert(parts@.subrange(k as int, k + 2).map_values(|s: String| s@) =~= names.take(2));
            assert(parts@.subrange(total - 2, total as int).map_values(|s: String| s@) =~= names.skip(
                n - 2,
            ));
            assert(result@ =~= root_text(path@, sep) + joined_names(names.take(2), sep) + elision(sep)
                + joined_names(names.skip(n - 2), sep));
        }
    } else {
        push_joined(&mut result, parts, k, total, sep);
        proof {
            assert(result@ =~= display_path(path@, sep));
        }
    }
    if is_dir && !ends_with_separator(&result, sep) {
        result.push(sep);
    }
    result
}

/// A path as the bin shows it, written with this platform's separator (see
/// `shorten_path_with`).
pub fn shorten_path(path: &FsPath, is_dir: bool) -> (r: String)
    ensures
        exists|sep: char| r@ == spec_shorten_path(path@, is_dir, sep),
{
    let sep = main_separator();
    let r = shorten_path_with(path, is_dir, sep);
    assert(r@ == spec_shorten_path(path@, is_dir, sep));
    r
}

/// A share of the pie: a label and the bytes it stands for.
#[derive(Clone, Debug, PartialEq, Eq)]
pub struct PieSlice {
    pub label: String,
    pub size: u64,
}

/// The entries behind a list of references.
pub open spec fn derefs(s: Seq<&FsEntry>) -> Seq<FsEntry> {
    s.map_values(|e: &FsEntry| *e)
}

/// The bytes of the entries past the first `PIE_SLICES`.
pub open spec fn other_size(entries: Seq<FsEntry>) -> nat {
    if entries.len() > PIE_SLICES {
        size_sum(entries.skip(PIE_SLICES as int))
    } else {
        0
    }
}

/// The bytes of a prefix of a list are at most those of the list.
pub proof fn lemma_size_sum_prefix(s: Seq<FsEntry>, k: int)
    requires
        0 <= k <= s.len(),
    ensures
        size_sum(s.take(k)) <= size_sum(s),
    decreases s.len(),
{
    if k == s.len() {
        assert(s.take(k) =~= s);
    } else {
        lemma_size_sum_prefix(s.drop_last(), k);
        assert(s.drop_last().take(k) =~= s.take(k));
    }
}

/// The bytes of a suffix of a list are at most those of the list.
pub proof fn lemma_size_sum_suffix(s: Seq<FsEntry>, k: int)
    requires
        0 <= k <= s.len(),
    ensures
        size_sum(s.skip(k)) <= size_sum(s),
    decreases s.len(),
{
    if k == s.len() {
        assert(s.skip(k) =~= Seq::<FsEntry>::empty());
    } else {
        lemma_size_sum_suffix(s.drop_last(), k);
        assert(s.skip(k).drop_last() =~= s.drop_last().skip(k));
    }
}

/// The bytes of two lists put end to end add up.
pub proof fn lemma_size_sum_append(a: Seq<FsEntry>, b: Seq<FsEntry>)
    ensures
        size_sum(a + b) == size_sum(a) + size_sum(b),
    decreases b.len(),
{
    if b.len() == 0 {
        assert(a + b =~= a);
    } else {
        lemma_size_sum_append(a, b.drop_last());
        assert((a + b).drop_last() =~= a + b.drop_last());
    }
}

/// The slices of the pie share out exactly the bytes of the entries: the
/// named slices count the first entries, the `Other` slice all the rest.
pub proof fn lemma_pie_covers_all(es: Seq<FsEntry>)
    ensures
        ({
            let named = if es.len() < PIE_SLICES {
                es.len() as int
            } else {
                PIE_SLICES as int
            };
            size_sum(es.take(named)) + other_size(es) == size_sum(es)
        }),
{
    if es.len() < PIE_SLICES {
        assert(es.take(es.len() as int) =~= es);
    } else {
        lemma_size_sum_append(es.take(PIE_SLICES as int), es.skip(PIE_SLICES as int));
        assert(es.take(PIE_SLICES as int) + es.skip(PIE_SLICES as int) =~= es);
        if es.len() == PIE_SLICES {
            assert(es.take(PIE_SLICES as int) =~= es);
        }
    }
}

/// The slices of the pie for entries shown largest first: one for each of
/// the first `PIE_SLICES` entries, labelled with its name and sized as it is
/// (0 while unknown), then one labelled `Other` for the rest, when the rest
/// counts any bytes.
pub fn pie_slices(entries: &Vec<&FsEntry>) -> (r: Vec<PieSlice>)
    requires
        other_size(derefs(entries@)) <= u64::MAX,
    ensures
        ({
            let es = derefs(entries@);
            let named = if es.len() < PIE_SLICES {
                es.len() as int
            } else {
                PIE_SLICES as int
            };
            &&& r@.len() == named + if other_size(es) > 0 {
                1int
            } else {
                0int
            }
            &&& forall|i: int| 0 <= i < named ==> (#[trigger] r@[i]).label@ == es[i].spec_name() && r@[i].size
                == size_of(es[i])
            &&& other_size(es) > 0 ==> r@[named].label@ == "Other"@ && r@[named].size == other_size(es)
        }),
{
    let ghost es = derefs(entries@);
    let mut slices: Vec<PieSlice> = Vec::new();
    let mut other: u64 = 0;
    let mut i: usize = 0;
    while i < entries.len()
        invariant
            es == derefs(entries@),
            other_size(es) <= u64::MAX,
            i <= entries.len(),
            slices@.len() == if i < PIE_SLICES {
                i
            } else {
                PIE_SLICES
            },
            forall|k: int| 0 <= k < slices@.len() ==> (#[trigger] slices@[k]).label@ == es[k].spec_name()
                && slices@[k].size == size_of(es[k]),
            i <= PIE_SLICES ==> other == 0,
            i > PIE_SLICES ==> other == size_sum(es.subrange(PIE_SLICES as int, i as int)),
        decreases entries.len() - i,
    {
        let entry = entries[i];
        let size: u64 = match entry.size() {
            Some(s) => s,
            None => 0,
        };
        if i < PIE_SLICES {
            slices.push(PieSlice { label: entry.name().clone(), size });
        } else {
            proof {
                let tail = es.skip(PIE_SLICES as int);
                let k = i - PIE_SLICES + 1;
                assert(es.subrange(PIE_SLICES as int, i + 1) =~= tail.take(k));
                assert(es.subrange(PIE_SLICES as int, i + 1).drop_last() =~= es.subrange(
                    PIE_SLICES as int,
                    i as int,
                ));
                if i == PIE_SLICES {
                    assert(es.subrange(PIE_SLICES as int, i as int) =~= Seq::<FsEntry>::empty());
                }
                lemma_size_sum_prefix(tail, k);
                assert(es[i as int] == *entry);
                assert(size as nat == size_of(es[i as int]));
                assert(es.subrange(PIE_SLICES as int, i + 1).last() == es[i as int]);
                assert(size_sum(es.subrange(PIE_SLICES as int, i + 1)) == size_sum(
                    es.subrange(PIE_SLICES as int, i as int),
                ) + size_of(es[i as int]));
            }
            other = other + size;
        }
        i = i + 1;
    }
    if other > 0 {
        proof {
            reveal_strlit("Other");
            assert(es.subrange(PIE_SLICES as int, i as int) =~= es.skip(PIE_SLICES as int));
        }
        slices.push(PieSlice { label: String::from_str("Other"), size: other });
    } else {
        proof {
            if es.len() > PIE_SLICES {
                assert(es.subrange(PIE_SLICES as int, i as int) =~= es.skip(PIE_SLICES as int));
            }
        }
    }
    slices
}

/// The first second of the year -9999 and the last second of the year 9999,
/// in Unix time: the range of dates the `time` crate always handles.
pub const FIRST_DATE_SECS: i64 = -377_705_116_800;

pub const LAST_DATE_SECS: i64 = 253_402_300_799;

/// The day in the proleptic Gregorian calendar (years numbered with a year
/// 0 before year 1) on which a Unix time in seconds falls in UTC: year,
/// month (1 to 12), day of the month (1 to 31). The days are counted in eras
/// of 400 years from 1 March of year 0.
pub open spec fn civil_date(secs: int) -> (int, int, int) {
    let z = secs / 86400 + 719468;
    let era = z / 146097;
    let doe = z - era * 146097;
    let yoe = (doe - doe / 1460 + doe / 36524 - doe / 146096) / 365;
    let doy = doe - (365 * yoe + yoe / 4 - yoe / 100);
    let mp = (5 * doy + 2) / 153;
    let day = doy - (153 * mp + 2) / 5 + 1;
    let month = if mp < 10 {
        mp + 3
    } else {
        mp - 9
    };
    let year = yoe + era * 400 + if month <= 2 {
        1int
    } else {
        0
    };
    (year, month, day)
}

/// The date of a Unix time with the types the `time` crate gives it.
pub open spec fn utc_date(secs: i64) -> (i32, u8, u8) {
    let c = civil_date(secs as int);
    (c.0 as i32, c.1 as u8, c.2 as u8)
}

/// The date of a Unix time, from `time::OffsetDateTime::from_unix_timestamp`
/// and the year, month and day of what it returns. Claimed: within the
/// years -9999 to 9999 the call succeeds and gives the UTC date of the
/// proleptic Gregorian calendar, `utc_date(secs)`, whose month lies in 1 to
/// 12, day in 1 to 31, and year in -9999 to 9999.
#[verifier::external_body]
fn utc_date_of(secs: i64) -> (r: Option<(i32, u8, u8)>)
    requires
        FIRST_DATE_SECS <= secs <= LAST_DATE_SECS,
    ensures
        r == Some(utc_date(secs)),
        r matches Some(d) ==> 1 <= d.1 <= 12 && 1 <= d.2 <= 31 && -9999 <= d.0 <= 9999,
{
    match time::OffsetDateTime::from_unix_timestamp(secs) {
        Ok(dt) => Some((dt.year(), dt.month() as u8, dt.day())),
        Err(_) => None,
    }
}

/// The character of a decimal digit.
pub open spec fn digit_char(d: int) -> char {
    if d == 0 {
        '0'
    } else if d == 1 {
        '1'
    } else if d == 2 {
        '2'
    } else if d == 3 {
        '3'
    } else if d == 4 {
        '4'
    } else if d == 5 {
        '5'
    } else if d == 6 {
        '6'
    } else if d == 7 {
        '7'
    } else if d == 8 {
        '8'
    } else {
        '9'
    }
}

/// A number from -99 to 99 written at least two characters wide, padded
/// with a zero after the sign.
pub open spec fn padded2(v: int) -> Seq<char> {
    if v >= 0 {
        seq![digit_char(v / 10), digit_char(v % 10)]
    } else if -v < 10 {
        seq!['-', digit_char(-v)]
    } else {
        seq!['-', digit_char((-v) / 10), digit_char((-v) % 10)]
    }
}

/// The last two decimal digits of a year, keeping its sign.
pub open spec fn year_digits(y: int) -> int {
    if y >= 0 {
        y % 100
    } else {
        -((-y) % 100)
    }
}

/// A date written as `YY-MM-DD`.
pub open spec fn date_text(d: (i32, u8, u8)) -> Seq<char> {
    padded2(year_digits(d.0 as int)) + seq!['-'] + padded2(d.1 as int) + seq!['-'] + padded2(d.2 as int)
}

/// Appends a decimal digit.
fn push_digit(out: &mut String, d: u8)
    requires
        d < 10,
    ensures
        final(out)@ == old(out)@.push(digit_char(d as int)),
{
    let s: &str = match d {
        0 => "0",
        1 => "1",
        2 => "2",
        3 => "3",
        4 => "4",
        5 => "5",
        6 => "6",
        7 => "7",
        8 => "8",
        _ => "9",
    };
    proof {
        reveal_strlit("0");
        reveal_strlit("1");
        reveal_strlit("2");
        reveal_strlit("3");
        reveal_strlit("4");
        reveal_strlit("5");
        reveal_strlit("6");
        reveal_strlit("7");
        reveal_strlit("8");
        reveal_strlit("9");
    }
    out.append(s);
    assert(final(out)@ =~= old(out)@.push(digit_char(d as int)));
}

/// Appends a number from -99 to 99 as `padded2` writes it.
fn push_padded2(out: &mut String, v: i32)
    requires
        -99 <= v <= 99,
    ensures
        final(out)@ == old(out)@ + padded2(v as int),
{
    proof {
        reveal_strlit("-");
    }
    if v >= 0 {
        push_digit(out, (v / 10) as u8);
        push_digit(out, (v % 10) as u8);
    } else {
        out.append("-");
        let a = -v;
        if a < 10 {
            push_digit(out, a as u8);
        } else {
            push_digit(out, (a / 10) as u8);
            push_digit(out, (a % 10) as u8);
        }
    }
    assert(final(out)@ =~= old(out)@ + padded2(v as int));
}

/// A time as the tree shows it: its UTC date as `YY-MM-DD`.
pub fn format_tree_date(t: FileTime) -> (r: String)
    requires
        FIRST_DATE_SECS <= t.secs <= LAST_DATE_SECS,
    ensures
        r@ == date_text(utc_date(t.secs)),
{
    let (year, month, day) = match utc_date_of(t.secs) {
        Some(d) => d,
        None => (0, 1, 1),
    };
    let yy: i32 = if year >= 0 {
        year % 100
    } else {
        -((-year) % 100)
    };
    let mut out = String::new();
    proof {
        reveal_strlit("-");
    }
    push_padded2(&mut out, yy);
    out.append("-");
    push_padded2(&mut out, month as i32);
    out.append("-");
    push_padded2(&mut out, day as i32);
    assert(out@ =~= date_text(utc_date(t.secs)));
    out
}

/// How `humansize` writes a number of bytes with decimal units (`kB`,
/// `MB`, ...) and two decimal places.
pub uninterp spec fn size_text(bytes: u64) -> Seq<char>;

/// The largest integer up to which every integer is exactly a `f64`.
pub const EXACT_FLOAT_MAX: u64 = 9_007_199_254_740_992;

/// A whole number of a unit: a count below 1000 is `(count, 0)` (bytes);
/// a multiple of 1000 is scaled down by 1000 and counted one unit up; any
/// other count has no whole number of a unit.
pub open spec fn exact_scale(n: nat, k: nat) -> Option<(nat, nat)>
    decreases n,
{
    if n < 1000 {
        Some((n, k))
    } else if n % 1000 == 0 {
        exact_scale(n / 1000, k + 1)
    } else {
        None
    }
}

/// The decimal units of `humansize`, from bytes up.
pub open spec fn decimal_unit(k: nat) -> Seq<char> {
    if k == 0 {
        "B"@
    } else if k == 1 {
        "kB"@
    } else if k == 2 {
        "MB"@
    } else if k == 3 {
        "GB"@
    } else if k == 4 {
        "TB"@
    } else if k == 5 {
        "PB"@
    } else if k == 6 {
        "EB"@
    } else if k == 7 {
        "ZB"@
    } else {
        "YB"@
    }
}

/// How a count that is a whole number of a unit is written: the number, a
/// space and the unit.
pub open spec fn whole_size_text(bytes: u64, text: Seq<char>) -> bool {
    bytes <= EXACT_FLOAT_MAX ==> (exact_scale(bytes as nat, 0) matches Some((m, k)) ==> text == decimal(m)
        + seq![' '] + decimal_unit(k))
}

/// `1000^k`.
pub open spec fn pow1000(k: nat) -> nat
    decreases k,
{
    if k == 0 {
        1
    } else {
        1000 * pow1000((k - 1) as nat)
    }
}

proof fn lemma_scale_step(x: nat)
    ensures
        (x * 1000) % 1000 == 0,
        (x * 1000) / 1000 == x,
{
    assert((x * 1000) % 1000 == 0 && (x * 1000) / 1000 == x) by (nonlinear_arith);
}

proof fn lemma_pow1000_positive(k: nat)
    ensures
        pow1000(k) >= 1,
    decreases k,
{
    if k > 0 {
        lemma_pow1000_positive((k - 1) as nat);
    }
}

/// `m` times `1000^k`, with `m` from 1 to 999, is a whole `m` of the `k`-th
/// unit.
proof fn lemma_exact_scale(m: nat, k: nat, j: nat)
    requires
        m < 1000,
        m >= 1 || k == 0,
    ensures
        exact_scale(m * pow1000(k), j) == Some((m, j + k)),
    decreases k,
{
    if k == 0 {
        assert(pow1000(0) == 1);
        assert(m * pow1000(0) == m) by (nonlinear_arith)
            requires
                pow1000(0) == 1,
        ;
    } else {
        let x = m * pow1000((k - 1) as nat);
        lemma_exact_scale(m, (k - 1) as nat, j + 1);
        lemma_pow1000_positive((k - 1) as nat);
        assert(m * pow1000(k) == x * 1000) by (nonlinear_arith)
            requires
                pow1000(k) == 1000 * pow1000((k - 1) as nat),
                x == m * pow1000((k - 1) as nat),
        ;
        assert(x >= 1) by (nonlinear_arith)
            requires
                m >= 1,
                pow1000((k - 1) as nat) >= 1,
                x == m * pow1000((k - 1) as nat),
        ;
        lemma_scale_step(x);
    }
}

/// A count of `m` times `1000^k`, with `m` from 1 to 999 (or any count below
/// 1000, with `k` 0), that is exact as a `f64`, is written `m`, a space and
/// the `k`-th unit: 5 000 000 000 bytes are `5 GB`, 999 bytes `999 B`.
pub proof fn lemma_whole_size(m: nat, k: nat, bytes: u64, text: Seq<char>)
    requires
        m < 1000,
        m >= 1 || k == 0,
        bytes == m * pow1000(k),
        bytes <= EXACT_FLOAT_MAX,
        whole_size_text(bytes, text),
    ensures
        text == decimal(m) + seq![' '] + decimal_unit(k),
{
    lemma_exact_scale(m, k, 0);
}

/// `humansize::format_size` with the `DECIMAL` options; its text is named
/// `size_text`, which depends on the number of bytes alone. Claimed besides,
/// from the source: a count that is a whole number `m` (below 1000) of a unit
/// `1000^k`, and is exact as a `f64`, is written `m`, a space and the unit
/// (divisions by 1000 are then exact, and a whole value gets no decimals);
/// so a count below 1000 is written as itself with ` B`.
#[verifier::external_body]
fn format_size_decimal(bytes: u64) -> (r: String)
    ensures
        r@ == size_text(bytes),
        whole_size_text(bytes, r@),
{
    humansize::format_size(bytes, humansize::DECIMAL)
}

/// The mark shown where a value is unknown.
pub open spec fn unknown_mark() -> Seq<char> {
    seq!['\u{2500}']
}

/// A time within the years the tree can write.
pub open spec fn time_in_range(t: Option<FileTime>) -> bool {
    t matches Some(x) ==> FIRST_DATE_SECS <= x.secs <= LAST_DATE_SECS
}

/// The texts of a row of the tree table, and whether its entry waits in the
/// bin (then the row is shown dimmed).
#[derive(Clone, Debug, PartialEq, Eq)]
pub struct TreeRowText {
    pub name: String,
    pub size: String,
    pub modified: String,
    pub created: String,
    pub in_bin: bool,
}

/// The text of a time cell: its date, or the unknown mark.
pub open spec fn time_text(t: Option<FileTime>) -> Seq<char> {
    match t {
        Some(x) => date_text(utc_date(x.secs)),
        None => unknown_mark(),
    }
}

fn time_cell(t: Option<FileTime>) -> (r: String)
    requires
        time_in_range(t),
    ensures
        r@ == time_text(t),
{
    match t {
        Some(x) => format_tree_date(x),
        None => {
            proof {
                reveal_strlit("\u{2500}");
            }
            let r = String::from_str("\u{2500}");
            assert(r@ =~= unknown_mark());
            r
        },
    }
}

/// The texts of the tree row of an entry of the directory shown: the name
/// (with `/` after a directory), the size or the unknown mark, the dates of
/// change and of creation or the unknown mark, and whether the entry's path
/// is in the bin.
pub fn tree_row(entry: &FsEntry, state: &State) -> (r: TreeRowText)
    requires
        time_in_range(entry.spec_modified()),
        time_in_range(entry.spec_created()),
    ensures
        r.name@ == if entry.spec_is_dir() {
            entry.spec_name().push('/')
        } else {
            entry.spec_name()
        },
        r.size@ == match entry.spec_size() {
            Some(s) => size_text(s),
            None => unknown_mark(),
        },
        entry.spec_size() matches Some(s) ==> whole_size_text(s, r.size@),
        r.modified@ == time_text(entry.spec_modified()),
        r.created@ == time_text(entry.spec_created()),
        r.in_bin == state.bin.has_path(state.tree.path@.joined(entry.spec_name())),
{
    let mut name = entry.name().clone();
    if entry.is_dir() {
        proof {
            reveal_strlit("/");
        }
        name.append("/");
    }
    let size = match entry.size() {
        Some(s) => format_size_decimal(s),
        None => {
            proof {
                reveal_strlit("\u{2500}");
            }
            let r = String::from_str("\u{2500}");
            assert(r@ =~= unknown_mark());
            r
        },
    };
    let modified = time_cell(entry.modified());
    let created = time_cell(entry.created());
    let entry_path = state.tree.path.join(entry.name());
    let in_bin = state.bin.contains_path(&entry_path);
    TreeRowText { name, size, modified, created, in_bin }
}

/// The texts of a bin row: the shortened path and the size.
pub fn bin_row(entry: &BinEntry) -> (r: (String, String))
    ensures
        exists|sep: char| r.0@ == spec_shorten_path(entry.path@, entry.is_dir, sep),
        r.1@ == size_text(entry.size),
        whole_size_text(entry.size, r.1@),
{
    (shorten_path(&entry.path, entry.is_dir), format_size_decimal(entry.size))
}

/// A number written in decimal digits.
pub open spec fn decimal(n: nat) -> Seq<char>
    decreases n,
{
    if n < 10 {
        seq![digit_char(n as int)]
    } else {
        decimal(n / 10).push(digit_char((n % 10) as int))
    }
}

/// Appends a number in decimal digits.
fn push_decimal(out: &mut String, n: u64)
    ensures
        final(out)@ == old(out)@ + decimal(n as nat),
    decreases n,
{
    if n >= 10 {
        push_decimal(out, n / 10);
    }
    let ghost mid = out@;
    push_digit(out, (n % 10) as u8);
    proof {
        if n >= 10 {
            assert(out@ =~= old(out)@ + decimal(n as nat));
        } else {
            assert(mid =~= old(out)@);
            assert(out@ =~= old(out)@ + decimal(n as nat));
        }
    }
}

/// A number in decimal digits.
pub fn decimal_text(n: u64) -> (r: String)
    ensures
        r@ == decimal(n as nat),
{
    let mut out = String::new();
    push_decimal(&mut out, n);
    proof {
        assert(out@ =~= decimal(n as nat));
    }
    out
}

/// A counter: a position, `/`, and a count.
pub open spec fn counter_text(at: nat, of: nat) -> Seq<char> {
    decimal(at) + seq!['/'] + decimal(of)
}

fn counter(at: u64, of: u64) -> (r: String)
    ensures
        r@ == counter_text(at as nat, of as nat),
{
    let mut out = String::new();
    push_decimal(&mut out, at);
    out.push('/');
    push_decimal(&mut out, of);
    proof {
        assert(out@ =~= counter_text(at as nat, of as nat));
    }
    out
}

/// The counter under the tree: while a scan runs, 0 over the entries found
/// so far; otherwise the selected row (0 when none is) over the number of
/// entries.
pub fn tree_counter_text(tree: &TreeState, scanning_entries: Option<u64>) -> (r: String)
    requires
        tree.wf(),
    ensures
        r@ == match scanning_entries {
            Some(found) => counter_text(0, found as nat),
            None => counter_text(
                match tree.spec_table().spec_selected() {
                    Some(i) => i as nat,
                    None => 0,
                },
                tree.spec_entries().len(),
            ),
        },
{
    match scanning_entries {
        Some(found) => counter(0, found),
        None => {
            let at: usize = match tree.table_state().selected() {
                Some(i) => i,
                None => 0,
            };
            counter(at as u64, tree.entries_len() as u64)
        },
    }
}

/// The size in the tree's title: while a scan runs, the bytes found so far;
/// otherwise the total of the entries shown.
pub fn tree_size_text(tree: &TreeState, scanning_size: Option<u64>) -> (r: String)
    ensures
        r@ == size_text(
            match scanning_size {
                Some(s) => s,
                None => tree.spec_total_size(),
            },
        ),
        whole_size_text(
            match scanning_size {
                Some(s) => s,
                None => tree.spec_total_size(),
            },
            r@,
        ),
{
    match scanning_size {
        Some(s) => format_size_decimal(s),
        None => format_size_decimal(tree.total_size()),
    }
}

/// The number of files in the bin, with `file` or `files`.
pub open spec fn files_text(n: nat) -> Seq<char> {
    decimal(n) + if n == 1 {
        " file"@
    } else {
        " files"@
    }
}

/// The files title of the bin.
pub fn bin_files_text(bin: &BinState) -> (r: String)
    ensures
        r@ == files_text(bin.total_files as nat),
{
    let n = bin.total_files();
    let mut out = String::new();
    push_decimal(&mut out, n);
    proof {
        reveal_strlit(" file");
        reveal_strlit(" files");
    }
    if n == 1 {
        out.append(" file");
    } else {
        out.append(" files");
    }
    proof {
        assert(out@ =~= files_text(n as nat));
    }
    out
}

/// The size in the bin's title: the total of its rows.
pub fn bin_size_text(bin: &BinState) -> (r: String)
    ensures
        r@ == size_text(bin.total_size),
        whole_size_text(bin.total_size, r@),
{
    format_size_decimal(bin.total_size())
}

/// The counter under the bin: the selected row counted from 1 over the
/// number of rows; 0 over 0 for an empty bin.
pub fn bin_counter_text(bin: &BinState) -> (r: String)
    requires
        bin.spec_rows().len() > 0 ==> bin.table_state.spec_selected() != Some(usize::MAX),
    ensures
        r@ == counter_text(
            if bin.spec_rows().len() == 0 {
                0
            } else {
                match bin.table_state.spec_selected() {
                    Some(i) => i as nat + 1,
                    None => 1,
                }
            },
            bin.spec_rows().len(),
        ),
{
    let len = bin.rows().len();
    if len == 0 {
        counter(0, 0)
    } else {
        let at: usize = match bin.table_state().selected() {
            Some(i) => i,
            None => 0,
        };
        counter(at as u64 + 1, len as u64)
    }
}

} // verus!
