//! The locode coordinate grammar: `"600N 01212E"` — two latitude degree
//! digits, latitude minutes, `N`/`S`, spaces, three longitude degree digits,
//! longitude minutes, `E`/`W`. Parsed exactly, in integer form; turning
//! degrees and minutes into decimal degrees is the callers' affair.
use vstd::prelude::*;

verus! {

/// A parsed coordinate: degrees and minutes with bearings. North and east
/// are the positive bearings.
#[derive(Debug, Copy, Clone, PartialEq, Eq, Structural)]
pub struct Coordinates {
    pub lat_deg: u32,
    pub lat_min: u32,
    pub lat_south: bool,
    pub lon_deg: u32,
    pub lon_min: u32,
    pub lon_west: bool,
}

pub open spec fn is_digit(c: char) -> bool {
    '0' <= c <= '9'
}

pub open spec fn digit_val(c: char) -> int {
    c as int - '0' as int
}

/// First position at or after `from` that does not hold a digit.
pub open spec fn run_end(s: Seq<char>, from: int) -> int
    decreases s.len() - from,
    when 0 <= from <= s.len()
{
    if from < 0 || from >= s.len() || !is_digit(s[from]) {
        from
    } else {
        run_end(s, from + 1)
    }
}

/// First position at or after `from` that does not hold a space.
pub open spec fn space_end(s: Seq<char>, from: int) -> int
    decreases s.len() - from,
    when 0 <= from <= s.len()
{
    if from < 0 || from >= s.len() || s[from] != ' ' {
        from
    } else {
        space_end(s, from + 1)
    }
}

/// The number the digits `s[a..b)` spell.
pub open spec fn num_val(s: Seq<char>, a: int, b: int) -> int
    decreases b - a,
    when a <= b
{
    if b <= a {
        0
    } else {
        num_val(s, a, b - 1) * 10 + digit_val(s[b - 1])
    }
}

/// What `coordinate_parser` accepts: the grammar above, applied at the head
/// of the input; the second component is how many characters it consumed.
pub open spec fn coord_spec(s: Seq<char>) -> Option<(Coordinates, int)> {
    let n = s.len() as int;
    if n < 2 || !is_digit(s[0]) || !is_digit(s[1]) {
        None
    } else {
        let m1 = run_end(s, 2);
        if m1 <= 2 || m1 >= n || !(s[m1] == 'N' || s[m1] == 'S') {
            None
        } else {
            let sp = space_end(s, m1 + 1);
            if sp <= m1 + 1 || sp + 3 > n || !is_digit(s[sp]) || !is_digit(s[sp + 1]) || !is_digit(
                s[sp + 2],
            ) {
                None
            } else {
                let l1 = run_end(s, sp + 3);
                if l1 <= sp + 3 || l1 >= n || !(s[l1] == 'E' || s[l1] == 'W') {
                    None
                } else if num_val(s, 2, m1) > u32::MAX || num_val(s, sp + 3, l1) > u32::MAX {
                    None
                } else {
                    Some(
                        (
                            Coordinates {
                                lat_deg: num_val(s, 0, 2) as u32,
                                lat_min: num_val(s, 2, m1) as u32,
                                lat_south: s[m1] == 'S',
                                lon_deg: num_val(s, sp, sp + 3) as u32,
                                lon_min: num_val(s, sp + 3, l1) as u32,
                                lon_west: s[l1] == 'W',
                            },
                            l1 + 1,
                        ),
                    )
                }
            }
        }
    }
}

fn is_digit_exec(c: char) -> (r: bool)
    ensures
        r == is_digit(c),
{
    c >= '0' && c <= '9'
}

/// End of the digit run starting at `from`.
fn run_end_exec(s: &str, from: usize, n: usize) -> (r: usize)
    requires
        s@.len() == n,
        from <= n,
    ensures
        r == run_end(s@, from as int),
        from <= r <= n,
    decreases n - from,
{
    if from < n && is_digit_exec(s.get_char(from)) {
        run_end_exec(s, from + 1, n)
    } else {
        from
    }
}

/// End of the space run starting at `from`.
fn space_end_exec(s: &str, from: usize, n: usize) -> (r: usize)
    requires
        s@.len() == n,
        from <= n,
    ensures
        r == space_end(s@, from as int),
        from <= r <= n,
    decreases n - from,
{
    if from < n && s.get_char(from) == ' ' {
        space_end_exec(s, from + 1, n)
    } else {
        from
    }
}

/// Digit values are not negative, so the number a longer run spells never
/// shrinks.
proof fn lemma_num_val_bounds(s: Seq<char>, a: int, b: int)
    requires
        a <= b <= s.len(),
        forall|k: int| a <= k < b ==> is_digit(#[trigger] s[k]),
    ensures
        num_val(s, a, b) >= 0,
        a < b ==> num_val(s, a, b) >= num_val(s, a, b - 1),
    decreases b - a,
{
    if a < b {
        lemma_num_val_bounds(s, a, b - 1);
        assert(num_val(s, a, b - 1) * 10 >= num_val(s, a, b - 1)) by (nonlinear_arith)
            requires
                num_val(s, a, b - 1) >= 0,
        ;
    }
}

/// The number `s[a..b)` spells, unless it exceeds `u32::MAX`.
fn num_val_exec(s: &str, a: usize, b: usize, n: usize) -> (r: Option<u32>)
    requires
        s@.len() == n,
        a <= b <= n,
        forall|k: int| a <= k < b ==> is_digit(#[trigger] s@[k]),
    ensures
        match r {
            Some(v) => v as int == num_val(s@, a as int, b as int) && num_val(
                s@,
                a as int,
                b as int,
            ) <= u32::MAX,
            None => num_val(s@, a as int, b as int) > u32::MAX,
        },
{
    let mut v: u64 = 0;
    let mut k: usize = a;
    while k < b
        invariant
            s@.len() == n,
            a <= k <= b <= n,
            forall|j: int| a <= j < b ==> is_digit(#[trigger] s@[j]),
            v as int == num_val(s@, a as int, k as int),
            v <= u32::MAX,
        decreases b - k,
    {
        let c = s.get_char(k);
        let d: u64 = (c as u32 as u64) - ('0' as u32 as u64);
        proof {
            assert(d as int == digit_val(s@[k as int]));
            assert(d <= 9);
        }
        v = v * 10 + d;
        k += 1;
        if v > u32::MAX as u64 {
            proof {
                let ghost kk = k as int;
                lemma_num_val_up(s@, a as int, kk, b as int);
            }
            return None;
        }
    }
    Some(v as u32)
}

/// Extending a digit run to the right never shrinks the number it spells.
proof fn lemma_num_val_up(s: Seq<char>, a: int, m: int, b: int)
    requires
        a <= m <= b <= s.len(),
        forall|k: int| a <= k < b ==> is_digit(#[trigger] s[k]),
    ensures
        num_val(s, a, b) >= num_val(s, a, m),
    decreases b - m,
{
    if m < b {
        lemma_num_val_bounds(s, a, b);
        lemma_num_val_up(s, a, m, b - 1);
        if m < b {
            lemma_num_val_bounds(s, a, b);
        }
    }
}

/// Everything inside a digit run is a digit.
proof fn lemma_run_digits(s: Seq<char>, from: int, k: int)
    requires
        0 <= from <= s.len(),
        from <= k < run_end(s, from),
    ensures
        is_digit(s[k]),
    decreases k - from,
{
    if k > from {
        lemma_run_digits(s, from + 1, k);
    }
}

/// Parse a coordinate pair from the head of `i`, returning the parsed value
/// and the number of characters consumed, or nothing when the input does not
/// fit the grammar (or a minute run exceeds `u32::MAX`).
pub fn coordinate_parser(i: &str) -> (r: Option<(Coordinates, usize)>)
    ensures
        match r {
            Some((c, used)) => coord_spec(i@) == Some((c, used as int)),
            None => coord_spec(i@) is None,
        },
{
    let n = i.unicode_len();
    if n < 2 || !is_digit_exec(i.get_char(0)) || !is_digit_exec(i.get_char(1)) {
        return None;
    }
    let m1 = run_end_exec(i, 2, n);
    if m1 <= 2 || m1 >= n {
        return None;
    }
    let bearing_lat = i.get_char(m1);
    if !(bearing_lat == 'N' || bearing_lat == 'S') {
        return None;
    }
    let sp = space_end_exec(i, m1 + 1, n);
    if sp <= m1 + 1 || sp > n - 3 {
        return None;
    }
    if !is_digit_exec(i.get_char(sp)) || !is_digit_exec(i.get_char(sp + 1)) || !is_digit_exec(
        i.get_char(sp + 2),
    ) {
        return None;
    }
    let l1 = run_end_exec(i, sp + 3, n);
    if l1 <= sp + 3 || l1 >= n {
        return None;
    }
    let bearing_lon = i.get_char(l1);
    if !(bearing_lon == 'E' || bearing_lon == 'W') {
        return None;
    }
    proof {
        assert forall|k: int| 2 <= k < m1 implies is_digit(#[trigger] i@[k]) by {
            lemma_run_digits(i@, 2, k);
        }
        assert forall|k: int| sp <= k < sp + 3 implies is_digit(#[trigger] i@[k]) by {
            if k > sp as int {
                assert(is_digit(i@[k]));
            }
        }
        assert forall|k: int| sp + 3 <= k < l1 implies is_digit(#[trigger] i@[k]) by {
            lemma_run_digits(i@, sp + 3, k);
        }
        assert(is_digit(i@[0]) && is_digit(i@[1]));
    }
    let lat_min = match num_val_exec(i, 2, m1, n) {
        Some(v) => v,
        None => {
            return None;
        },
    };
    let lon_min = match num_val_exec(i, sp + 3, l1, n) {
        Some(v) => v,
        None => {
            return None;
        },
    };
    proof {
        assert(num_val(i@, 0, 0) == 0);
        assert(num_val(i@, 0, 1) == digit_val(i@[0]));
        assert(num_val(i@, 0, 2) == num_val(i@, 0, 1) * 10 + digit_val(i@[1]));
        assert(num_val(i@, 0, 2) <= 99);
        let s = sp as int;
        assert(num_val(i@, s, s) == 0);
        assert(num_val(i@, s, s + 1) == digit_val(i@[s]));
        assert(num_val(i@, s, s + 2) == num_val(i@, s, s + 1) * 10 + digit_val(i@[s + 1]));
        assert(num_val(i@, s, s + 3) == num_val(i@, s, s + 2) * 10 + digit_val(i@[s + 2]));
        assert(num_val(i@, s, s + 3) <= 999);
    }
    let lat_deg = match num_val_exec(i, 0, 2, n) {
        Some(v) => v,
        None => {
            return None;
        },
    };
    let lon_deg = match num_val_exec(i, sp, sp + 3, n) {
        Some(v) => v,
        None => {
            return None;
        },
    };
    Some(
        (
            Coordinates {
                lat_deg,
                lat_min,
                lat_south: bearing_lat == 'S',
                lon_deg,
                lon_min,
                lon_west: bearing_lon == 'W',
            },
            l1 + 1,
        ),
    )
}

} // verus!
