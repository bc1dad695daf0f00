//! When the log writer starts a new file: after every thousand lines.
use vstd::prelude::*;

verus! {

/// Lines per log file.
pub const MAX_LINES_PER_FILE: u16 = 1000;

/// Writing one byte: whether a new file is started before it, and the line
/// count of the current file after it.
pub open spec fn log_step(line_count: u16, byte: u8) -> (bool, u16) {
    let rotate = line_count >= MAX_LINES_PER_FILE;
    let count = if rotate {
        0
    } else {
        line_count
    };
    let next = if byte == 10 {
        if count == u16::MAX {
            u16::MAX
        } else {
            (count + 1) as u16
        }
    } else {
        count
    };
    (rotate, next)
}

/// Writing `bytes` from a file with `line_count` lines: the positions before
/// which a new file is started, and the line count at the end.
pub open spec fn log_plan(line_count: u16, bytes: Seq<u8>) -> (Seq<int>, u16)
    decreases bytes.len(),
{
    if bytes.len() == 0 {
        (seq![], line_count)
    } else {
        let (rotations, count) = log_plan(line_count, bytes.drop_last());
        let (rotate, next) = log_step(count, bytes.last());
        if rotate {
            (rotations.push(bytes.len() - 1), next)
        } else {
            (rotations, next)
        }
    }
}

/// How to write a buffer to the rotating log.
#[derive(Debug, PartialEq, Eq)]
pub struct LogWritePlan {
    /// Positions in the buffer before which a new log file is started.
    pub rotate_before: Vec<usize>,
    /// The line count of the current file after the write.
    pub line_count: u16,
}

/// Plans writing `buf` to the rotating log whose current file holds
/// `line_count` lines: a new file starts before any byte written while the
/// current one holds `MAX_LINES_PER_FILE` lines, and each `'\n'` counts a line.
pub fn plan_log_write(line_count: u16, buf: &[u8]) -> (plan: LogWritePlan)
    ensures
        plan.rotate_before@.map_values(|i: usize| i as int) == log_plan(line_count, buf@).0,
        plan.line_count == log_plan(line_count, buf@).1,
{
    let mut rotations: Vec<usize> = Vec::new();
    let mut count = line_count;
    let mut i: usize = 0;
    while i < buf.len()
        invariant
            i <= buf@.len(),
            rotations@.map_values(|k: usize| k as int) == log_plan(line_count, buf@.take(i as int)).0,
            count == log_plan(line_count, buf@.take(i as int)).1,
        decreases buf@.len() - i,
    {
        assert(buf@.take(i + 1).drop_last() =~= buf@.take(i as int));
        let ghost before = rotations@;
        if count >= MAX_LINES_PER_FILE {
            rotations.push(i);
            count = 0;
            assert(rotations@.map_values(|k: usize| k as int) =~= before.map_values(|k: usize| k as int).push(
                i as int,
            ));
        }
        if buf[i] == 10 {
            count = count.saturating_add(1);
        }
        i = i + 1;
    }
    assert(buf@.take(i as int) =~= buf@);
    LogWritePlan { rotate_before: rotations, line_count: count }
}

/// A log file never holds more than `MAX_LINES_PER_FILE` lines: starting
/// from a file within the limit, every byte leaves the current file within
/// it, and a new file is started exactly when the current one is full.
pub proof fn law_log_files_stay_within_limit(line_count: u16, bytes: Seq<u8>)
    requires
        line_count <= MAX_LINES_PER_FILE,
    ensures
        log_plan(line_count, bytes).1 <= MAX_LINES_PER_FILE,
    decreases bytes.len(),
{
    if bytes.len() > 0 {
        law_log_files_stay_within_limit(line_count, bytes.drop_last());
    }
}

/// The number of `'\n'` bytes.
pub open spec fn newlines(bytes: Seq<u8>) -> nat
    decreases bytes.len(),
{
    if bytes.len() == 0 {
        0
    } else {
        newlines(bytes.drop_last()) + if bytes.last() == 10 {
            1nat
        } else {
            0nat
        }
    }
}

/// A new file is started before byte `k` exactly when the current file is
/// full (holds `MAX_LINES_PER_FILE` lines or more) just before it; the
/// positions come in order, inside the buffer. The line count at the end is
/// the lines written since the last new file, or, when none was started,
/// the starting count plus the lines written (at most `u16::MAX`).
pub proof fn law_new_file_exactly_when_full(line_count: u16, bytes: Seq<u8>)
    ensures
        ({
            let (rotations, count) = log_plan(line_count, bytes);
            &&& forall|k: int|
                0 <= k < bytes.len() ==> (rotations.contains(k) <==> log_plan(
                    line_count,
                    bytes.take(k),
                ).1 >= MAX_LINES_PER_FILE)
            &&& forall|i: int| 0 <= i < rotations.len() ==> 0 <= #[trigger] rotations[i] < bytes.len()
            &&& forall|i: int, j: int|
                0 <= i < j < rotations.len() ==> #[trigger] rotations[i] < #[trigger] rotations[j]
            &&& rotations.len() == 0 ==> count == if line_count + newlines(bytes) > u16::MAX {
                u16::MAX as int
            } else {
                line_count + newlines(bytes)
            }
            &&& rotations.len() > 0 ==> count == newlines(bytes.skip(rotations.last()))
        }),
    decreases bytes.len(),
{
    if bytes.len() == 0 {
    } else {
        let d = bytes.drop_last();
        law_new_file_exactly_when_full(line_count, d);
        let (r0, c) = log_plan(line_count, d);
        let (rot, next) = log_step(c, bytes.last());
        let (rotations, count) = log_plan(line_count, bytes);
        let n = bytes.len() - 1;
        assert(bytes.take(n) =~= d);
        assert forall|k: int| 0 <= k < bytes.len() implies (rotations.contains(k) <==> log_plan(
            line_count,
            bytes.take(k),
        ).1 >= MAX_LINES_PER_FILE) by {
            if k < n {
                assert(bytes.take(k) =~= d.take(k));
                if rot {
                    assert(rotations == r0.push(n));
                    if r0.contains(k) {
                        let i = choose|i: int| 0 <= i < r0.len() && r0[i] == k;
                        assert(rotations[i] == k);
                    }
                    if rotations.contains(k) {
                        let i = choose|i: int| 0 <= i < rotations.len() && rotations[i] == k;
                        assert(i < r0.len());
                        assert(r0[i] == k);
                    }
                }
            } else {
                if rot {
                    assert(rotations[r0.len() as int] == n);
                } else if rotations.contains(n) {
                    let i = choose|i: int| 0 <= i < rotations.len() && rotations[i] == n;
                    assert(r0[i] < d.len());
                }
            }
        }
        if rot {
            assert(rotations == r0.push(n));
            assert forall|i: int| 0 <= i < rotations.len() implies 0 <= #[trigger] rotations[i]
                < bytes.len() by {
                if i < r0.len() {
                    assert(rotations[i] == r0[i]);
                }
            }
            assert forall|i: int, j: int|
                0 <= i < j < rotations.len() implies #[trigger] rotations[i]
                < #[trigger] rotations[j] by {
                if j < r0.len() {
                    assert(rotations[i] == r0[i] && rotations[j] == r0[j]);
                } else {
                    assert(rotations[i] == r0[i]);
                }
            }
            assert(rotations.last() == n);
            assert(bytes.skip(n).len() == 1);
            assert(bytes.skip(n).drop_last() =~= Seq::<u8>::empty());
            assert(bytes.skip(n).last() == bytes.last());
            assert(newlines(bytes.skip(n)) == newlines(Seq::<u8>::empty()) + if bytes.last() == 10 {
                1nat
            } else {
                0nat
            });
        } else {
            assert(rotations == r0);
            if r0.len() > 0 {
                let r = r0.last();
                assert(r0[r0.len() - 1] < d.len());
                assert(bytes.skip(r).len() > 0);
                assert(bytes.skip(r).drop_last() =~= d.skip(r));
                assert(bytes.skip(r).last() == bytes.last());
                assert(newlines(bytes.skip(r)) == newlines(d.skip(r)) + if bytes.last() == 10 {
                    1nat
                } else {
                    0nat
                });
            }
        }
    }
}

} // verus!
