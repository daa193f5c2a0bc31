use hyperfine::output::warnings::{OffCpuSeverity, OutlierWarningOptions, Warnings};
use hyperfine::util::units::Second;

fn secs(seconds: f64) -> Second {
    Second::from_bits(seconds.to_bits())
}

fn opts(warmup_in_use: bool, prepare_in_use: bool) -> OutlierWarningOptions {
    OutlierWarningOptions { warmup_in_use, prepare_in_use }
}

#[test]
fn fast_execution_time_names_the_limit() {
    assert_eq!(
        Warnings::FastExecutionTime.message(),
        "Command took less than 5 ms to complete. Note that the results might be inaccurate \
         because hyperfine can not calibrate the shell startup time much more precise than this \
         limit. You can try to use the `-N`/`--shell=none` option to disable the shell completely."
    );
}

#[test]
fn non_zero_exit_code() {
    assert_eq!(Warnings::NonZeroExitCode.message(), "Ignoring non-zero exit code.");
}

#[test]
fn slow_initial_run_shows_the_time_and_a_hint() {
    let msg = Warnings::SlowInitialRun(secs(1.234), opts(false, false)).message();
    assert_eq!(
        msg,
        "The first benchmarking run for this command was significantly slower than the rest \
         (1.234 s). This could be caused by (filesystem) caches that were not filled until after \
         the first run. You should consider using the '--warmup' option to fill those caches \
         before the actual benchmark. Alternatively, use the '--prepare' option to clear the \
         caches before each timing run."
    );
    let both = Warnings::SlowInitialRun(secs(0.002), opts(true, true)).message();
    assert!(both.contains("(2.0 ms)"));
    assert!(both.ends_with("Alternatively, consider increasing the warmup count."));
    let warmup = Warnings::SlowInitialRun(secs(0.002), opts(true, false)).message();
    assert!(warmup.contains("You are already using the '--warmup' option which helps"));
    let prepare = Warnings::SlowInitialRun(secs(0.002), opts(false, true)).message();
    assert!(prepare.contains("You are already using the '--prepare' option which can"));
}

#[test]
fn outlier_hint_only_when_an_option_is_unused() {
    let base = "Statistical outliers were detected. Consider re-running this benchmark on a quiet \
                system without any interferences from other programs.";
    assert_eq!(Warnings::OutliersDetected(opts(true, true)).message(), base);
    let hint = " It might help to use the '--warmup' or '--prepare' options.";
    assert_eq!(Warnings::OutliersDetected(opts(true, false)).message(), format!("{base}{hint}"));
    assert_eq!(Warnings::OutliersDetected(opts(false, true)).message(), format!("{base}{hint}"));
    assert_eq!(Warnings::OutliersDetected(opts(false, false)).message(), format!("{base}{hint}"));
}

#[test]
fn off_cpu_warnings_show_times_and_ratio() {
    let w = Warnings::OffCpuTimeDetected {
        wall_time: secs(2.5),
        cpu_time: secs(1.0),
        ratio: secs(2.5),
        severity: OffCpuSeverity::Note,
    };
    assert_eq!(
        w.message(),
        "Some off-CPU time detected: mean wall time (2.500 s) is 2.5× the CPU time (1.000 s). \
         The benchmark may include scheduling or I/O effects."
    );
    let w = Warnings::OffCpuTimeDetected {
        wall_time: secs(0.04),
        cpu_time: secs(0.01),
        ratio: secs(4.0),
        severity: OffCpuSeverity::Warning,
    };
    assert!(w.message().starts_with(
        "Substantial off-CPU time detected: mean wall time (40.0 ms) is 4.0× the CPU time (10.0 ms)."
    ));
    let w = Warnings::OffCpuTimeDetected {
        wall_time: secs(0.0009),
        cpu_time: secs(0.0),
        ratio: secs(f64::INFINITY),
        severity: OffCpuSeverity::Severe,
    };
    assert!(w.message().starts_with(
        "Process was off-CPU for most of its runtime: mean wall time (900.0 µs) is inf× the CPU time (0.0 µs)."
    ));
    assert!(w.message().ends_with("Consider running on a quiet system or investigating the root cause."));
}

#[test]
fn ratio_rounds_to_one_decimal() {
    let w = |n: f64, d: f64| {
        Warnings::OffCpuTimeDetected {
            wall_time: secs(0.0),
            cpu_time: secs(0.0),
            ratio: secs(n / d),
            severity: OffCpuSeverity::Note,
        }
        .message()
    };
    assert!(w(10.0, 3.0).contains(" is 3.3× "));
    assert!(w(20.0, 3.0).contains(" is 6.7× "));
    assert!(w(0.0, 0.0).contains(" is NaN× "));
    assert!(w(0.0, 7.0).contains(" is 0.0× "));
    assert!(w(0.25, 1.0).contains(" is 0.2× "));
    assert!(w(0.35, 1.0).contains(&format!(" is {:.1}× ", 0.35f64)));
}
