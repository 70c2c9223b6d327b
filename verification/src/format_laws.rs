//! How near the sizes on the screen are to the sizes that they stand for, how numbers are kept, and
//! what is printed.
use vstd::arithmetic::div_mod::{lemma_fundamental_div_mod, lemma_mod_bound};
use vstd::prelude::*;

use crate::db::{entry_in, kept, EntryRow};
use crate::demo::{demo_dirs, demo_effects, demo_stats, is_demo_file, stage_after, DemoStage};
use crate::format::{
    as_double, half_even, in_units, megabytes, precision, signed_megabytes, size_text,
};
use crate::report::{columns, date_of, plus_minus, PRINTED_DIRS, PRINTED_PATH};
use crate::scanner::{FileEntry, ScanStats};
use crate::text::{decimal, occurrences, signed_decimal};
use crate::text_laws::{law_numeral_reads_back, value_of};
use crate::time::{date_text, rfc3339_instant, Timestamp};
use crate::ui::screens::unsigned;
use crate::walk::Effect;

verus! {

/// A rounded quotient is as near to the exact one as a whole number can be; of two that are as
/// near, it is the even one.
pub proof fn law_rounded_to_nearest(n: nat, d: nat)
    requires
        d > 0,
    ensures
        2 * (half_even(n, d) * d) <= 2 * n + d,
        2 * n <= 2 * (half_even(n, d) * d) + d,
        2 * (half_even(n, d) * d) == 2 * n + d || 2 * n == 2 * (half_even(n, d) * d) + d
            ==> half_even(n, d) % 2 == 0,
{
    let q = n / d;
    let r = n % d;
    lemma_fundamental_div_mod(n as int, d as int);
    lemma_mod_bound(n as int, d as int);
    assert(n == d * q + r);
    assert((q + 1) * d == q * d + d) by (nonlinear_arith);
    assert(d * q == q * d) by (nonlinear_arith);
}

/// One step of a number with 53 binary digits: it is one up to 2^53, and above that so large that
/// the number has between 2^52 and 2^53 steps.
pub proof fn law_steps_of_a_double(n: nat)
    ensures
        n < 0x20_0000_0000_0000 ==> precision(n) == 1,
        n >= 0x20_0000_0000_0000 ==> precision(n) * 0x10_0000_0000_0000 <= n < precision(n)
            * 0x20_0000_0000_0000,
    decreases n,
{
    if n >= 0x20_0000_0000_0000 {
        law_steps_of_a_double(n / 2);
    }
}

/// Up to 2^53 a size is shown as it is, and above that as near as 53 binary digits come.
pub proof fn law_double_is_near(n: nat)
    ensures
        n < 0x20_0000_0000_0000 ==> as_double(n) == n,
        precision(n) > 0,
        2 * as_double(n) <= 2 * n + precision(n),
        2 * n <= 2 * as_double(n) + precision(n),
{
    law_steps_of_a_double(n);
    if precision(n) == 0 {
        assert(0nat * 0x20_0000_0000_0000 == 0);
    }
    law_rounded_to_nearest(n, precision(n));
    if n < 0x20_0000_0000_0000 {
        assert(n / 1 == n && n % 1 == 0);
        assert(half_even(n, 1) == n);
        assert(n * 1 == n);
    }
}

/// A size in some unit is written with two digits behind the point, and reads as the nearest
/// hundredth.
pub proof fn law_size_in_units(n: nat, unit: nat) -> (whole: Seq<char>)
    requires
        unit > 0,
    ensures
        ({
            let text = in_units(n, unit);
            let k = text.len() - 3;
            let hundredths = value_of(text.take(k) + text.skip(k + 1));
            &&& k >= 1
            &&& whole == text.take(k)
            &&& text[k] == '.'
            &&& 2 * (hundredths * unit) <= 2 * (as_double(n) * 100) + unit
            &&& 2 * (as_double(n) * 100) <= 2 * (hundredths * unit) + unit
        }),
{
    let h = half_even(as_double(n) * 100, unit);
    let text = in_units(n, unit);
    let a = decimal(h / 100);
    let k = text.len() - 3;
    law_numeral_reads_back(h / 100);
    law_rounded_to_nearest(as_double(n) * 100, unit);
    assert(text.take(k) =~= a);
    let joined = text.take(k) + text.skip(k + 1);
    let one = joined.drop_last();
    assert(one.drop_last() =~= a);
    assert(one.last() as int - '0' as int == h / 10 % 10);
    assert(joined.last() as int - '0' as int == h % 10);
    assert(value_of(one) == 10 * (h / 100) + h / 10 % 10);
    assert(value_of(joined) == h);
    a
}

/// A size is shown in bytes up to a kilobyte, and from there in the largest unit that it reaches:
/// kilobytes of 1024 bytes, megabytes, gigabytes and terabytes of 1024 of the unit before.
pub proof fn law_unit_of_a_size(bytes: nat)
    ensures
        bytes < 1024 ==> size_text(bytes) == decimal(bytes) + " B"@,
        1024 <= bytes < 1024 * 1024 ==> size_text(bytes) == in_units(bytes, 1024) + " KB"@,
        1024 * 1024 <= bytes < 1024 * 1024 * 1024 ==> size_text(bytes) == in_units(
            bytes,
            1024 * 1024,
        ) + " MB"@,
        1024 * 1024 * 1024 <= bytes < 1024 * 1024 * 1024 * 1024 ==> size_text(bytes) == in_units(
            bytes,
            1024 * 1024 * 1024,
        ) + " GB"@,
        1024 * 1024 * 1024 * 1024 <= bytes ==> size_text(bytes) == in_units(
            bytes,
            1024 * 1024 * 1024 * 1024,
        ) + " TB"@,
{
}

/// A size in megabytes has a minus sign where it is negative, and one that always shows its sign has
/// a plus sign elsewhere; behind the sign stands the amount. So it is with counts.
pub proof fn law_signs(n: nat)
    ensures
        megabytes(n as int) == in_units(n, 1024 * 1024),
        signed_megabytes(n as int) == seq!['+'] + in_units(n, 1024 * 1024),
        n > 0 ==> megabytes(-n) == seq!['-'] + in_units(n, 1024 * 1024),
        n > 0 ==> signed_megabytes(-n) == seq!['-'] + in_units(n, 1024 * 1024),
        plus_minus(n as int) == seq!['+'] + decimal(n),
        n > 0 ==> plus_minus(-n) == seq!['-'] + decimal(n),
        signed_decimal(n as int) == decimal(n),
{
    assert(megabytes(n as int) =~= in_units(n, 1024 * 1024));
}

/// A number is kept as one of as many bits: below 2^63 as it is, above that 2^64 less; and it can be
/// told back.
pub proof fn law_kept_number_reads_back(n: u64)
    ensures
        i64::MIN <= kept(n) <= i64::MAX,
        kept(n) == n || kept(n) == n - 0x1_0000_0000_0000_0000,
        n < 0x8000_0000_0000_0000 ==> kept(n) == n,
        unsigned(kept(n) as i64) == n,
{
}

/// A size that is stored as a number of its own stands for itself.
pub proof fn law_stored_size(n: i64)
    ensures
        n >= 0 ==> unsigned(n) == n,
        unsigned(n) == n || unsigned(n) == n + 0x1_0000_0000_0000_0000,
        0 <= unsigned(n) <= u64::MAX,
{
}

/// A file of the demo lies right in its directory: its path is the directory's, a slash and its
/// name, it lies one deeper than the directory has slashes, and its size is a whole number of
/// kilobytes below a hundred.
pub proof fn law_demo_file(e: FileEntry, d: int, i: nat)
    requires
        0 <= d < 5,
        is_demo_file(e, d, i),
    ensures
        e.parent_path is Some,
        e.path@ == e.parent_path->0@ + "/"@ + e.name@,
        e.parent_path->0@ == demo_dirs()[d].0,
        e.name@ == "file_"@ + decimal(i) + ".txt"@,
        !e.is_dir,
        e.size == 1024 * (i % 100),
        e.modified_at is None,
        e.depth == occurrences(e.path@.take(e.parent_path->0@.len() as int), '/') + 1,
{
    assert(e.path@.take(e.parent_path->0@.len() as int) =~= e.parent_path->0@);
}

/// The directories of the demo and how many files each holds: two thousand and two hundred in all.
pub proof fn law_demo_directories()
    ensures
        demo_dirs().len() == 5,
        demo_dirs()[0] == ("/demo/src"@, 150nat),
        demo_dirs()[1] == ("/demo/target/debug"@, 500nat),
        demo_dirs()[2] == ("/demo/target/release"@, 300nat),
        demo_dirs()[3] == ("/demo/node_modules"@, 1200nat),
        demo_dirs()[4] == ("/demo/docs"@, 50nat),
        demo_dirs()[0].1 + demo_dirs()[1].1 + demo_dirs()[2].1 + demo_dirs()[3].1 + demo_dirs()[4].1
            == 2200,
{
}

/// A directory of the demo is made known with all its files when it is entered; after each file it
/// is made known how many are done, and when it is left, that it is.
pub proof fn law_demo_tells_of_directories(d: usize, i: usize, effects: Seq<Effect>)
    requires
        d < 5,
    ensures
        demo_effects(DemoStage::Before(d), false, effects) ==> {
            &&& effects.len() == 1
            &&& effects[0] matches Effect::Entered { path, total }
            &&& path@ == demo_dirs()[d as int].0
            &&& total == demo_dirs()[d as int].1
        },
        stage_after(DemoStage::Before(d), false) == DemoStage::Inside(d, 0),
        demo_effects(DemoStage::Inside(d, i), false, effects) && i < demo_dirs()[d as int].1 ==> {
            &&& effects.len() == 2
            &&& effects[1] matches Effect::Advanced { path, done }
            &&& path@ == demo_dirs()[d as int].0
            &&& done == i + 1
        },
        demo_effects(DemoStage::Inside(d, i), false, effects) && i >= demo_dirs()[d as int].1 ==> {
            &&& effects.len() == 1
            &&& effects[0] matches Effect::Left { path }
            &&& path@ == demo_dirs()[d as int].0
        },
        stage_after(DemoStage::Before(5), false) == DemoStage::Over,
        demo_effects(DemoStage::Before(5), false, effects) ==> effects.len() == 0,
{
}

/// A demo goes through its directories in order and through every file of each, and makes each of
/// them known: the totals grow by what is made known.
pub proof fn law_demo_step(stage: DemoStage, stats: ScanStats, effects: Seq<Effect>, d: usize, i: usize)
    requires
        d < 5,
        stage == DemoStage::Inside(d, i),
        demo_effects(stage, false, effects),
        stats.total_files < u64::MAX,
        stats.total_dirs < u64::MAX,
        stats.total_size <= u64::MAX - 102_400,
    ensures
        i < demo_dirs()[d as int].1 ==> {
            &&& stage_after(stage, false) == DemoStage::Inside(d, (i + 1) as usize)
            &&& effects[0] is Found
            &&& demo_stats(stage, false, stats).total_files == stats.total_files + 1
            &&& demo_stats(stage, false, stats).total_dirs == stats.total_dirs
            &&& demo_stats(stage, false, stats).total_size == stats.total_size
                + effects[0]->Found_0.size
        },
        i >= demo_dirs()[d as int].1 ==> {
            &&& stage_after(stage, false) == DemoStage::Before((d + 1) as usize)
            &&& effects[0] is Left
            &&& demo_stats(stage, false, stats).total_files == stats.total_files
            &&& demo_stats(stage, false, stats).total_dirs == stats.total_dirs + 1
            &&& demo_stats(stage, false, stats).total_size == stats.total_size
        },
{
}

/// A demo that is cancelled leaves the directory that it is in, which still counts, finds nothing
/// more, and ends.
pub proof fn law_demo_is_cancelled(d: usize, i: usize, effects: Seq<Effect>, stats: ScanStats)
    requires
        d < 5,
        stats.total_dirs < u64::MAX,
        demo_effects(DemoStage::Inside(d, i), true, effects),
    ensures
        stage_after(DemoStage::Inside(d, i), true) == DemoStage::Before((d + 1) as usize),
        stage_after(DemoStage::Before((d + 1) as usize), true) == DemoStage::Over,
        effects.len() == 1,
        effects[0] is Left,
        demo_stats(DemoStage::Inside(d, i), true, stats) == (ScanStats {
            total_dirs: (stats.total_dirs + 1) as u64,
            ..stats
        }),
        demo_stats(DemoStage::Before(d), true, stats) == stats,
{
}

/// In a table, each of the five columns starts at its place, unless one before it is too long, and
/// nothing of a column is left out: a number at 0, a path at 6, two counts at 47 and 60, and a date
/// at 73. A column that is too long moves those after it.
pub proof fn law_columns_have_places(
    a: Seq<char>,
    b: Seq<char>,
    c: Seq<char>,
    d: Seq<char>,
    e: Seq<char>,
)
    requires
        a.len() <= 5,
        c.len() <= 12,
        d.len() <= 12,
        e.len() <= 20,
    ensures
        ({
            let row = columns(a, b, c, d, e);
            let more: int = if b.len() > 40 {
                b.len() - 40
            } else {
                0
            };
            &&& row.len() == 93 + more
            &&& row.subrange(0, a.len() as int) == a
            &&& row.subrange(6, (6 + b.len()) as int) == b
            &&& row.subrange(47 + more, 47 + more + c.len()) == c
            &&& row.subrange(60 + more, 60 + more + d.len()) == d
            &&& row.subrange(73 + more, 73 + more + e.len()) == e
            &&& forall|i: int|
                {
                    ||| a.len() <= i < 6
                    ||| 6 + b.len() <= i < 47 + more
                    ||| 47 + more + c.len() <= i < 60 + more
                    ||| 60 + more + d.len() <= i < 73 + more
                    ||| 73 + more + e.len() <= i < 93 + more
                } ==> #[trigger] row[i] == ' '
        }),
{
    reveal_strlit(" ");
    let row = columns(a, b, c, d, e);
    let more: int = if b.len() > 40 {
        b.len() - 40
    } else {
        0
    };
    assert(row.subrange(0, a.len() as int) =~= a);
    assert(row.subrange(6, (6 + b.len()) as int) =~= b);
    assert(row.subrange(47 + more, 47 + more + c.len()) =~= c);
    assert(row.subrange(60 + more, 60 + more + d.len()) =~= d);
    assert(row.subrange(73 + more, 73 + more + e.len()) =~= e);
}

/// A date is printed with its time, to the second; four directories are printed, with seventy bytes
/// of their paths.
pub proof fn law_what_is_printed(t: Timestamp)
    ensures
        date_of(t) == date_text(t.secs, t.nanos, "%Y-%m-%d %H:%M:%S"@),
        PRINTED_DIRS == 4,
        PRINTED_PATH == 70,
{
}

/// What a row of the database holds is read as it is, but for times, which are read from their
/// texts; a time that is missing or cannot be read is none.
pub proof fn law_row_is_read(row: EntryRow)
    ensures
        ({
            let e = entry_in(row);
            &&& e.id == row.id && e.scan_id == row.scan_id
            &&& e.path == row.path && e.name == row.name && e.parent_path == row.parent_path
            &&& e.size == row.size && e.is_dir == row.is_dir && e.depth == row.depth
            &&& row.modified_at is None ==> e.modified_at is None
            &&& row.modified_at is Some && rfc3339_instant(row.modified_at->0@) is None
                ==> e.modified_at is None
            &&& row.modified_at is Some && rfc3339_instant(row.modified_at->0@) is Some
                ==> e.modified_at is Some && e.modified_at->0.secs == (rfc3339_instant(
                row.modified_at->0@,
            )->0).0 && e.modified_at->0.nanos == (rfc3339_instant(row.modified_at->0@)->0).1
        }),
{
}

} // verus!
