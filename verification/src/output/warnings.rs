//! The warnings shown after a benchmark, and their text.

use vstd::prelude::*;

use crate::benchmark::MIN_EXECUTION_TIME_BITS;
use crate::output::format::{duration_text, format_duration};
use crate::util::decimal::{lemma_one_digit, shown_value};
use crate::util::double::{
    lemma_fields, lemma_pow2_add, lemma_pow2_monotone, lemma_pow2_positive, lemma_pow2_values,
    lemma_product_text_accuracy, pow2, product_text, push_product_text, Float64,
};
use crate::util::units::Second;

verus! {

pub struct OutlierWarningOptions {
    pub warmup_in_use: bool,
    pub prepare_in_use: bool,
}

/// Severity level for off-CPU time warning
pub enum OffCpuSeverity {
    /// Ratio 2-3×: minor off-CPU time
    Note,
    /// Ratio 3-5×: substantial off-CPU time
    Warning,
    /// Ratio 5×+: process was mostly off-CPU
    Severe,
}

/// The text of a ratio: one decimal, ties to even ("inf" and "NaN" where
/// floating point gives those).
pub open spec fn ratio_text(r: Float64) -> Seq<char> {
    product_text(r, 1, 1)
}

/// A list of all possible warnings
pub enum Warnings {
    FastExecutionTime,
    NonZeroExitCode,
    SlowInitialRun(Second, OutlierWarningOptions),
    OutliersDetected(OutlierWarningOptions),
    /// Process spent significant time off-CPU (wall time >> user + system time)
    OffCpuTimeDetected { wall_time: Second, cpu_time: Second, ratio: Float64, severity: OffCpuSeverity },
}

/// The advice that ends the warning about a slow first run.
pub open spec fn slow_run_hint(warmup_in_use: bool, prepare_in_use: bool) -> Seq<char> {
    if warmup_in_use && prepare_in_use {
        "You are already using both the '--warmup' option as well as the '--prepare' option. Consider re-running the benchmark on a quiet system. Maybe it was a random outlier. Alternatively, consider increasing the warmup count."@
    } else if warmup_in_use {
        "You are already using the '--warmup' option which helps to fill these caches before the actual benchmark. You can either try to increase the warmup count further or re-run this benchmark on a quiet system in case it was a random outlier. Alternatively, consider using the '--prepare' option to clear the caches before each timing run."@
    } else if prepare_in_use {
        "You are already using the '--prepare' option which can be used to clear caches. If you did not use a cache-clearing command with '--prepare', you can either try that or consider using the '--warmup' option to fill those caches before the actual benchmark."@
    } else {
        "You should consider using the '--warmup' option to fill those caches before the actual benchmark. Alternatively, use the '--prepare' option to clear the caches before each timing run."@
    }
}

/// The advice that ends the warning about outliers: none when both the warmup
/// and the prepare options are already in use.
pub open spec fn outlier_hint(warmup_in_use: bool, prepare_in_use: bool) -> Seq<char> {
    if warmup_in_use && prepare_in_use {
        ""@
    } else {
        " It might help to use the '--warmup' or '--prepare' options."@
    }
}

/// The text of the off-CPU warning for each severity, around the two times and
/// the ratio.
pub open spec fn off_cpu_text(
    wall: Seq<char>,
    cpu: Seq<char>,
    ratio: Seq<char>,
    severity: OffCpuSeverity,
) -> Seq<char> {
    match severity {
        OffCpuSeverity::Note => "Some off-CPU time detected: mean wall time ("@ + wall + ") is "@ + ratio
            + "× the CPU time ("@ + cpu + "). The benchmark may include scheduling or I/O effects."@,
        OffCpuSeverity::Warning => "Substantial off-CPU time detected: mean wall time ("@ + wall
            + ") is "@ + ratio + "× the CPU time ("@ + cpu
            + "). The benchmark is partly measuring system-level effects (scheduling, I/O, memory management) rather than program performance. Consider investigating with 'perf' or checking for resource contention."@,
        OffCpuSeverity::Severe => "Process was off-CPU for most of its runtime: mean wall time ("@
            + wall + ") is "@ + ratio + "× the CPU time ("@ + cpu
            + "). This benchmark is likely not measuring what you intend. Common causes include: transparent hugepage allocation, I/O blocking, memory pressure, or CPU throttling. Consider running on a quiet system or investigating the root cause."@,
    }
}

impl Warnings {
    /// The text of the warning.
    pub open spec fn message_text(&self) -> Seq<char> {
        match self {
            Warnings::FastExecutionTime => "Command took less than "@ + product_text(
                Float64 { bits: MIN_EXECUTION_TIME_BITS },
                1000,
                0,
            )
                + " ms to complete. Note that the results might be inaccurate because hyperfine can not calibrate the shell startup time much more precise than this limit. You can try to use the `-N`/`--shell=none` option to disable the shell completely."@,
            Warnings::NonZeroExitCode => "Ignoring non-zero exit code."@,
            Warnings::SlowInitialRun(time_first_run, options) =>
                "The first benchmarking run for this command was significantly slower than the rest ("@
                + duration_text(*time_first_run, None)
                + "). This could be caused by (filesystem) caches that were not filled until after the first run. "@
                + slow_run_hint(options.warmup_in_use, options.prepare_in_use),
            Warnings::OutliersDetected(options) =>
                "Statistical outliers were detected. Consider re-running this benchmark on a quiet system without any interferences from other programs."@
                + outlier_hint(options.warmup_in_use, options.prepare_in_use),
            Warnings::OffCpuTimeDetected { wall_time, cpu_time, ratio, severity } => off_cpu_text(
                duration_text(*wall_time, None),
                duration_text(*cpu_time, None),
                ratio_text(*ratio),
                *severity,
            ),
        }
    }

    /// The text of the warning, as shown to the user.
    pub fn message(&self) -> (s: String)
        ensures
            s@ == self.message_text(),
    {
        let mut s = String::new();
        match self {
            Warnings::FastExecutionTime => {
                s.append("Command took less than ");
                push_product_text(&mut s, Float64::from_bits(MIN_EXECUTION_TIME_BITS), 1000, 0);
                s.append(
                    " ms to complete. Note that the results might be inaccurate because hyperfine can not calibrate the shell startup time much more precise than this limit. You can try to use the `-N`/`--shell=none` option to disable the shell completely.",
                );
            },
            Warnings::NonZeroExitCode => {
                s.append("Ignoring non-zero exit code.");
            },
            Warnings::SlowInitialRun(time_first_run, options) => {
                s.append(
                    "The first benchmarking run for this command was significantly slower than the rest (",
                );
                let time = format_duration(*time_first_run, None);
                s.append(time.as_str());
                s.append(
                    "). This could be caused by (filesystem) caches that were not filled until after the first run. ",
                );
                if options.warmup_in_use && options.prepare_in_use {
                    s.append(
                        "You are already using both the '--warmup' option as well as the '--prepare' option. Consider re-running the benchmark on a quiet system. Maybe it was a random outlier. Alternatively, consider increasing the warmup count.",
                    );
                } else if options.warmup_in_use {
                    s.append(
                        "You are already using the '--warmup' option which helps to fill these caches before the actual benchmark. You can either try to increase the warmup count further or re-run this benchmark on a quiet system in case it was a random outlier. Alternatively, consider using the '--prepare' option to clear the caches before each timing run.",
                    );
                } else if options.prepare_in_use {
                    s.append(
                        "You are already using the '--prepare' option which can be used to clear caches. If you did not use a cache-clearing command with '--prepare', you can either try that or consider using the '--warmup' option to fill those caches before the actual benchmark.",
                    );
                } else {
                    s.append(
                        "You should consider using the '--warmup' option to fill those caches before the actual benchmark. Alternatively, use the '--prepare' option to clear the caches before each timing run.",
                    );
                }
            },
            Warnings::OutliersDetected(options) => {
                s.append(
                    "Statistical outliers were detected. Consider re-running this benchmark on a quiet system without any interferences from other programs.",
                );
                if options.warmup_in_use && options.prepare_in_use {
                    s.append("");
                } else {
                    s.append(" It might help to use the '--warmup' or '--prepare' options.");
                }
            },
            Warnings::OffCpuTimeDetected { wall_time, cpu_time, ratio, severity } => {
                let wall_str = format_duration(*wall_time, None);
                let cpu_str = format_duration(*cpu_time, None);
                match severity {
                    OffCpuSeverity::Note => {
                        s.append("Some off-CPU time detected: mean wall time (");
                    },
                    OffCpuSeverity::Warning => {
                        s.append("Substantial off-CPU time detected: mean wall time (");
                    },
                    OffCpuSeverity::Severe => {
                        s.append("Process was off-CPU for most of its runtime: mean wall time (");
                    },
                }
                s.append(wall_str.as_str());
                s.append(") is ");
                push_product_text(&mut s, *ratio, 1, 1);
                s.append("× the CPU time (");
                s.append(cpu_str.as_str());
                match severity {
                    OffCpuSeverity::Note => {
                        s.append("). The benchmark may include scheduling or I/O effects.");
                    },
                    OffCpuSeverity::Warning => {
                        s.append(
                            "). The benchmark is partly measuring system-level effects (scheduling, I/O, memory management) rather than program performance. Consider investigating with 'perf' or checking for resource contention.",
                        );
                    },
                    OffCpuSeverity::Severe => {
                        s.append(
                            "). This benchmark is likely not measuring what you intend. Common causes include: transparent hugepage allocation, I/O blocking, memory pressure, or CPU throttling. Consider running on a quiet system or investigating the root cause.",
                        );
                    },
                }
            },
        }
        assert(s@ =~= self.message_text());
        s
    }
}

/// `t` begins with `s`.
pub open spec fn text_starts_with(t: Seq<char>, s: Seq<char>) -> bool {
    s.len() <= t.len() && t.subrange(0, s.len() as int) == s
}

/// `t` ends with `s`.
pub open spec fn text_ends_with(t: Seq<char>, s: Seq<char>) -> bool {
    s.len() <= t.len() && t.subrange(t.len() - s.len(), t.len() as int) == s
}

proof fn lemma_split(a: Seq<char>, b: Seq<char>)
    ensures
        text_starts_with(a + b, a),
        text_ends_with(a + b, b),
{
    assert((a + b).subrange(0, a.len() as int) =~= a);
    assert((a + b).subrange((a + b).len() - b.len(), (a + b).len() as int) =~= b);
}

/// The off-CPU warning names its severity in its opening and its conclusion:
/// it opens with the severity's sentence and the wall time and ratio, and
/// closes with the CPU time and the severity's own conclusion; the three
/// severities give three different messages.
pub proof fn lemma_off_cpu_message(wall: Second, cpu: Second, ratio: Float64)
    ensures
        ({
            let w = duration_text(wall, None);
            let c = duration_text(cpu, None);
            let r = product_text(ratio, 1, 1);
            let note = Warnings::OffCpuTimeDetected {
                wall_time: wall,
                cpu_time: cpu,
                ratio,
                severity: OffCpuSeverity::Note,
            }.message_text();
            let warning = Warnings::OffCpuTimeDetected {
                wall_time: wall,
                cpu_time: cpu,
                ratio,
                severity: OffCpuSeverity::Warning,
            }.message_text();
            let severe = Warnings::OffCpuTimeDetected {
                wall_time: wall,
                cpu_time: cpu,
                ratio,
                severity: OffCpuSeverity::Severe,
            }.message_text();
            &&& text_starts_with(note, "Some off-CPU time detected: mean wall time ("@ + w + ") is "@ + r)
            &&& text_ends_with(note, "× the CPU time ("@ + c + "). The benchmark may include scheduling or I/O effects."@)
            &&& text_starts_with(warning, "Substantial off-CPU time detected: mean wall time ("@ + w + ") is "@ + r)
            &&& text_ends_with(warning, "× the CPU time ("@ + c
                + "). The benchmark is partly measuring system-level effects (scheduling, I/O, memory management) rather than program performance. Consider investigating with 'perf' or checking for resource contention."@)
            &&& text_starts_with(severe, "Process was off-CPU for most of its runtime: mean wall time ("@ + w + ") is "@ + r)
            &&& text_ends_with(severe, "× the CPU time ("@ + c
                + "). This benchmark is likely not measuring what you intend. Common causes include: transparent hugepage allocation, I/O blocking, memory pressure, or CPU throttling. Consider running on a quiet system or investigating the root cause."@)
            &&& note != warning && warning != severe && note != severe
        }),
{
    let w = duration_text(wall, None);
    let c = duration_text(cpu, None);
    let r = ratio_text(ratio);
    let mid = "× the CPU time ("@;
    let note_close = "). The benchmark may include scheduling or I/O effects."@;
    let warning_close = "). The benchmark is partly measuring system-level effects (scheduling, I/O, memory management) rather than program performance. Consider investigating with 'perf' or checking for resource contention."@;
    let severe_close = "). This benchmark is likely not measuring what you intend. Common causes include: transparent hugepage allocation, I/O blocking, memory pressure, or CPU throttling. Consider running on a quiet system or investigating the root cause."@;
    let note_open = "Some off-CPU time detected: mean wall time ("@ + w + ") is "@ + r;
    let warning_open = "Substantial off-CPU time detected: mean wall time ("@ + w + ") is "@ + r;
    let severe_open = "Process was off-CPU for most of its runtime: mean wall time ("@ + w + ") is "@ + r;
    let note = note_open + (mid + c + note_close);
    let warning = warning_open + (mid + c + warning_close);
    let severe = severe_open + (mid + c + severe_close);
    assert(off_cpu_text(w, c, r, OffCpuSeverity::Note) =~= note);
    assert(off_cpu_text(w, c, r, OffCpuSeverity::Warning) =~= warning);
    assert(off_cpu_text(w, c, r, OffCpuSeverity::Severe) =~= severe);
    lemma_split(note_open, mid + c + note_close);
    lemma_split(warning_open, mid + c + warning_close);
    lemma_split(severe_open, mid + c + severe_close);
    reveal_strlit("). The benchmark may include scheduling or I/O effects.");
    reveal_strlit(
        "). The benchmark is partly measuring system-level effects (scheduling, I/O, memory management) rather than program performance. Consider investigating with 'perf' or checking for resource contention.",
    );
    reveal_strlit(
        "). This benchmark is likely not measuring what you intend. Common causes include: transparent hugepage allocation, I/O blocking, memory pressure, or CPU throttling. Consider running on a quiet system or investigating the root cause.",
    );
    assert(note[note.len() - 2] == 's');
    assert(warning[warning.len() - 2] == 'n');
    assert(severe[severe.len() - 2] == 'e');
}

/// The shortest reliable run, 5e-3 seconds, shown in milliseconds without
/// decimals, is "5".
proof fn lemma_min_execution_time_text()
    ensures
        product_text(Float64 { bits: MIN_EXECUTION_TIME_BITS }, 1000, 0) == seq!['5'],
{
    let x = Float64 { bits: MIN_EXECUTION_TIME_BITS };
    lemma_fields(x);
    lemma_pow2_values();
    assert(x.biased_exponent() == 1015);
    assert(x.fraction() == 1_261_007_895_663_739);
    let sig: nat = 5_764_607_523_034_235;
    assert(x.significand() == sig);
    let big = pow2(1014);
    assert(x.units() == sig * big);
    lemma_pow2_positive(1014);
    lemma_pow2_add(1083, 1014);
    lemma_pow2_monotone(63, 1083);
    assert(x.units() * 1000 <= pow2(2097)) by (nonlinear_arith)
        requires
            x.units() == sig * big,
            pow2(2097) == pow2(1083) * big,
            pow2(1083) >= pow2(63),
            pow2(63) == 0x8000_0000_0000_0000,
            sig == 5_764_607_523_034_235,
    ;
    lemma_product_text_accuracy(x, 1000, 0);
    let t = product_text(x, 1000, 0);
    let v = shown_value(t);
    assert(crate::util::decimal::pow10(0) == 1);
    lemma_pow2_add(60, 1014);
    lemma_pow2_add(112, 1014);
    lemma_pow2_add(60, 3);
    lemma_pow2_add(112, 14);
    assert(pow2(3) == 8 && pow2(14) == 16384) by {
        reveal_with_fuel(pow2, 15);
    }
    let two60 = pow2(60);
    let two112 = pow2(112);
    assert(two60 == 1_152_921_504_606_846_976);
    assert(two112 == 5_192_296_858_534_827_628_530_496_329_220_096);
    let exact = x.units() * 1000 * 1;
    assert(exact == (sig * 1000) * big) by (nonlinear_arith)
        requires
            exact == x.units() * 1000 * 1,
            x.units() == sig * big,
    ;
    let two53 = pow2(53);
    assert(two53 * (v * two60) <= two53 * (sig * 1000) + two112 + sig * 1000) by (nonlinear_arith)
        requires
            two53 * ((v * (two60 * big))) <= two53 * ((sig * 1000) * big) + two112 * big + (sig * 1000) * big,
            big >= 1,
    ;
    assert(two53 * (sig * 1000) <= two53 * (v * two60) + two112 + sig * 1000) by (nonlinear_arith)
        requires
            two53 * ((sig * 1000) * big) <= two53 * ((v * (two60 * big))) + two112 * big + (sig * 1000) * big,
            big >= 1,
    ;
    assert(v == 5) by (nonlinear_arith)
        requires
            two53 * (v * two60) <= two53 * (sig * 1000) + two112 + sig * 1000,
            two53 * (sig * 1000) <= two53 * (v * two60) + two112 + sig * 1000,
            two53 == 9_007_199_254_740_992,
            two60 == 1_152_921_504_606_846_976,
            two112 == 5_192_296_858_534_827_628_530_496_329_220_096,
            sig == 5_764_607_523_034_235,
    ;
    lemma_one_digit(t);
}

/// The warnings other than off-CPU time: the fast-run warning names the
/// limit, 5 ms, the exit-code warning is one fixed sentence, the
/// slow-first-run warning shows the first run's time and ends with advice for
/// the options in use, and the outlier warning adds advice exactly when the
/// warmup or the prepare option is unused.
pub proof fn lemma_other_messages(time: Second, warmup_in_use: bool, prepare_in_use: bool)
    ensures
        text_starts_with(Warnings::FastExecutionTime.message_text(), "Command took less than "@),
        text_ends_with(
            Warnings::FastExecutionTime.message_text(),
            " ms to complete. Note that the results might be inaccurate because hyperfine can not calibrate the shell startup time much more precise than this limit. You can try to use the `-N`/`--shell=none` option to disable the shell completely."@,
        ),
        Warnings::FastExecutionTime.message_text() == "Command took less than 5 ms to complete. Note that the results might be inaccurate because hyperfine can not calibrate the shell startup time much more precise than this limit. You can try to use the `-N`/`--shell=none` option to disable the shell completely."@,
        Warnings::NonZeroExitCode.message_text() == "Ignoring non-zero exit code."@,
        ({
            let m = Warnings::SlowInitialRun(time, OutlierWarningOptions { warmup_in_use, prepare_in_use }).message_text();
            &&& text_starts_with(
                m,
                "The first benchmarking run for this command was significantly slower than the rest ("@
                    + duration_text(time, None) + "). This could be caused by (filesystem) caches that were not filled until after the first run. "@,
            )
            &&& (warmup_in_use && prepare_in_use) ==> text_ends_with(
                m,
                "You are already using both the '--warmup' option as well as the '--prepare' option. Consider re-running the benchmark on a quiet system. Maybe it was a random outlier. Alternatively, consider increasing the warmup count."@,
            )
            &&& (warmup_in_use && !prepare_in_use) ==> text_ends_with(
                m,
                "You are already using the '--warmup' option which helps to fill these caches before the actual benchmark. You can either try to increase the warmup count further or re-run this benchmark on a quiet system in case it was a random outlier. Alternatively, consider using the '--prepare' option to clear the caches before each timing run."@,
            )
            &&& (!warmup_in_use && prepare_in_use) ==> text_ends_with(
                m,
                "You are already using the '--prepare' option which can be used to clear caches. If you did not use a cache-clearing command with '--prepare', you can either try that or consider using the '--warmup' option to fill those caches before the actual benchmark."@,
            )
            &&& (!warmup_in_use && !prepare_in_use) ==> text_ends_with(
                m,
                "You should consider using the '--warmup' option to fill those caches before the actual benchmark. Alternatively, use the '--prepare' option to clear the caches before each timing run."@,
            )
        }),
        ({
            let m = Warnings::OutliersDetected(OutlierWarningOptions { warmup_in_use, prepare_in_use }).message_text();
            let base = "Statistical outliers were detected. Consider re-running this benchmark on a quiet system without any interferences from other programs."@;
            &&& (warmup_in_use && prepare_in_use) ==> m == base
            &&& !(warmup_in_use && prepare_in_use) ==> m == base
                + " It might help to use the '--warmup' or '--prepare' options."@
        }),
{
    let fast_open = "Command took less than "@;
    let fast_rest = product_text(Float64 { bits: MIN_EXECUTION_TIME_BITS }, 1000, 0)
        + " ms to complete. Note that the results might be inaccurate because hyperfine can not calibrate the shell startup time much more precise than this limit. You can try to use the `-N`/`--shell=none` option to disable the shell completely."@;
    assert(Warnings::FastExecutionTime.message_text() =~= fast_open + fast_rest);
    assert(fast_open + fast_rest =~= (fast_open + product_text(Float64 { bits: MIN_EXECUTION_TIME_BITS }, 1000, 0))
        + " ms to complete. Note that the results might be inaccurate because hyperfine can not calibrate the shell startup time much more precise than this limit. You can try to use the `-N`/`--shell=none` option to disable the shell completely."@);
    lemma_split(fast_open, fast_rest);
    lemma_split(
        fast_open + product_text(Float64 { bits: MIN_EXECUTION_TIME_BITS }, 1000, 0),
        " ms to complete. Note that the results might be inaccurate because hyperfine can not calibrate the shell startup time much more precise than this limit. You can try to use the `-N`/`--shell=none` option to disable the shell completely."@,
    );
    lemma_min_execution_time_text();
    reveal_strlit("Command took less than ");
    reveal_strlit(" ms to complete. Note that the results might be inaccurate because hyperfine can not calibrate the shell startup time much more precise than this limit. You can try to use the `-N`/`--shell=none` option to disable the shell completely.");
    reveal_strlit("Command took less than 5 ms to complete. Note that the results might be inaccurate because hyperfine can not calibrate the shell startup time much more precise than this limit. You can try to use the `-N`/`--shell=none` option to disable the shell completely.");
    assert(Warnings::FastExecutionTime.message_text() =~= "Command took less than 5 ms to complete. Note that the results might be inaccurate because hyperfine can not calibrate the shell startup time much more precise than this limit. You can try to use the `-N`/`--shell=none` option to disable the shell completely."@);
    let head = "The first benchmarking run for this command was significantly slower than the rest ("@
        + duration_text(time, None) + "). This could be caused by (filesystem) caches that were not filled until after the first run. "@;
    let hint = slow_run_hint(warmup_in_use, prepare_in_use);
    assert(Warnings::SlowInitialRun(time, OutlierWarningOptions { warmup_in_use, prepare_in_use }).message_text() =~= head + hint);
    lemma_split(head, hint);
    reveal_strlit("");
    let base = "Statistical outliers were detected. Consider re-running this benchmark on a quiet system without any interferences from other programs."@;
    assert(base + ""@ =~= base);
}

} // verus!
