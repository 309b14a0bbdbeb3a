//! How a request for the data of a time range is read and sent: how many lines a read
//! and a package hold, and how many packages are sent.
use vstd::prelude::*;

verus! {

/// Bytes read from disk at once, ideally.
pub const IDEAL_READ_SIZE: usize = 1_000;

/// Bytes before the data of a package.
pub const HEADER_SIZE: usize = 4;

/// Bytes of memory that decoding may use.
pub const FREE_RAM: usize = 1_000_000;

/// The number of lines between two byte positions of a data file, the line at the end
/// excluded; `None` where there are none.
pub fn lines_between(start_byte: u64, stop_byte: u64, full_line_size: u64) -> (n: Option<u64>)
    requires
        start_byte <= stop_byte,
        full_line_size > 0,
        stop_byte == start_byte || stop_byte - start_byte >= full_line_size,
    ensures
        stop_byte == start_byte ==> n is None,
        stop_byte != start_byte ==> n == Some(((stop_byte - start_byte) as int / full_line_size as int - 1) as u64),
{
    if stop_byte - start_byte == 0 {
        return None;
    }
    let diff: u64 = stop_byte - start_byte;
    assert(diff / full_line_size >= 1) by (nonlinear_arith)
        requires
            diff >= full_line_size,
            full_line_size > 0,
    ;
    Some((stop_byte - start_byte) / full_line_size - 1)
}

/// The bytes one decoded line takes: a 64-bit time stamp and a 32-bit value per field.
pub fn decoded_line_size(n_fields: usize) -> (n: usize)
    requires
        n_fields * 4 + 8 <= usize::MAX,
    ensures
        n == n_fields * 4 + 8,
{
    n_fields * 4 + 8
}

/// How a read is done.
pub struct ReadPlan {
    pub n_packages: u16,
    pub bytes_per_package: usize,
    pub lines_per_read: usize,
    pub lines_per_package: usize,
}

pub open spec fn min(a: int, b: int) -> int {
    if a <= b {
        a
    } else {
        b
    }
}

pub open spec fn max(a: int, b: int) -> int {
    if a >= b {
        a
    } else {
        b
    }
}

/// The lines per package: enough to read well from disk, few enough to send at least
/// three packages, and, above all, few enough to decode in the memory available; but
/// always at least one, so that a request for few points is planned too.
pub open spec fn plan_lines_per_package(
    requested_lines: int,
    lines_per_sample: int,
    full_line_size: int,
    decoded_line_size: int,
) -> int {
    let for_reading = max(lines_per_sample, IDEAL_READ_SIZE as int / (lines_per_sample * full_line_size));
    let for_sending = min(for_reading, requested_lines / 3);
    max(1, min(for_sending, FREE_RAM as int - (lines_per_sample * full_line_size + decoded_line_size)))
}

/// The conditions under which a plan can be computed: a sample of lines takes some bytes
/// and fits in memory with a decoded line, and the sizes of a read and a package fit in
/// a `usize`.
pub open spec fn plannable(
    max_points: u64,
    lines_in_range: u64,
    lines_per_sample: usize,
    full_line_size: usize,
    decoded_line_size: usize,
) -> bool {
    let requested = min(max_points as int, lines_in_range as int);
    &&& lines_per_sample * full_line_size > 0
    &&& lines_per_sample * full_line_size + decoded_line_size <= FREE_RAM
    &&& max_points == 0 || {
        let lpp = plan_lines_per_package(
            requested,
            lines_per_sample as int,
            full_line_size as int,
            decoded_line_size as int,
        );
        &&& lpp * lines_per_sample <= usize::MAX
        &&& lpp * decoded_line_size + HEADER_SIZE <= usize::MAX
    }
}

/// Decides how `min(max_points, lines_in_range)` lines, taken a sample of
/// `lines_per_sample` lines at a time, are read and sent; `None` for zero points.
pub fn prepare_read_processing(
    max_points: u64,
    lines_in_range: u64,
    lines_per_sample: usize,
    full_line_size: usize,
    decoded_line_size: usize,
) -> (r: Option<ReadPlan>)
    requires
        plannable(max_points, lines_in_range, lines_per_sample, full_line_size, decoded_line_size),
    ensures
        max_points == 0 ==> r is None,
        max_points > 0 ==> (r matches Some(plan) && {
            let requested = min(max_points as int, lines_in_range as int);
            let lpp = plan_lines_per_package(
                requested,
                lines_per_sample as int,
                full_line_size as int,
                decoded_line_size as int,
            );
            &&& plan.lines_per_package == lpp
            &&& plan.lines_per_read == lpp * lines_per_sample
            &&& plan.n_packages == (requested / lpp) % 65536
            &&& plan.bytes_per_package == lpp * decoded_line_size + HEADER_SIZE
        }),
{
    if max_points == 0 {
        return None;
    }
    let requested: u64 = if max_points <= lines_in_range {
        max_points
    } else {
        lines_in_range
    };
    let bytes_per_sample = lines_per_sample * full_line_size;
    let by_read = IDEAL_READ_SIZE / bytes_per_sample;
    let lpp1: usize = if lines_per_sample >= by_read {
        lines_per_sample
    } else {
        by_read
    };
    let third: u64 = requested / 3;
    let lpp2: usize = if (lpp1 as u64) <= third {
        lpp1
    } else {
        third as usize
    };
    let ram = bytes_per_sample + decoded_line_size;
    let room = FREE_RAM - ram;
    let lpp3: usize = if lpp2 <= room {
        lpp2
    } else {
        room
    };
    let lpp: usize = if lpp3 >= 1 {
        lpp3
    } else {
        1
    };
    let lines_per_read = lpp * lines_per_sample;
    let n: u64 = requested / (lpp as u64);
    let n_packages: u16 = (n % 65536) as u16;
    Some(
        ReadPlan {
            n_packages,
            bytes_per_package: lpp * decoded_line_size + HEADER_SIZE,
            lines_per_read,
            lines_per_package: lpp,
        },
    )
}

} // verus!
