//! Turns raw log bytes into normalized line signatures.
//!
//! A signature is computed per physical newline-delimited record in three
//! deterministic passes:
//! 1. control stripping: ANSI CSI escape sequences and control bytes are
//!    removed (tabs become spaces);
//! 2. volatile masking: ISO-8601-like timestamps, lower-case hex runs of
//!    length >= 6, decimal runs of length >= 3 and `/tmp/`-rooted path tokens
//!    are each replaced by a fixed placeholder;
//! 3. whitespace collapse: runs of spaces shrink to one space, with leading
//!    and trailing whitespace dropped.
//!
//! Two lines that differ only in such volatile substrings map to the same
//! signature, which is what lets the frequency model generalize across runs.
//! Input need not be valid UTF-8: bytes outside the control range pass
//! through unchanged, so malformed text still gets a stable signature.

use vstd::prelude::*;

verus! {

pub open spec fn is_digit(b: u8) -> bool {
    48 <= b <= 57
}

/// Lower-case hexadecimal digit (masked hashes in logs are lower-case).
pub open spec fn is_hex(b: u8) -> bool {
    is_digit(b) || (97 <= b <= 102)
}

pub open spec fn is_space(b: u8) -> bool {
    b == 32
}

// ---------------------------------------------------------------------------
// Pass 1: control stripping.
// ---------------------------------------------------------------------------

/// Remainder of the control-stripping pass from position `i`; `esc` says
/// whether the scan stands inside an ANSI CSI sequence, whose bytes are all
/// dropped up to and including its final byte (0x40..=0x7e).
pub open spec fn strip_from(s: Seq<u8>, i: int, esc: bool) -> Seq<u8>
    decreases s.len() - i,
{
    if i < 0 || i >= s.len() {
        Seq::empty()
    } else if esc {
        if 0x40 <= s[i] <= 0x7e {
            strip_from(s, i + 1, false)
        } else {
            strip_from(s, i + 1, true)
        }
    } else if s[i] == 0x1b && i + 1 < s.len() && s[i + 1] == 91 {
        // ESC '[' opens a CSI sequence.
        strip_from(s, i + 2, true)
    } else if s[i] == 9 {
        // Tabs count as whitespace for the collapse pass.
        seq![32u8] + strip_from(s, i + 1, false)
    } else if s[i] < 32 || s[i] == 127 {
        strip_from(s, i + 1, false)
    } else {
        seq![s[i]] + strip_from(s, i + 1, false)
    }
}

pub open spec fn strip_controls_spec(s: Seq<u8>) -> Seq<u8> {
    strip_from(s, 0, false)
}

/// Removes ANSI CSI sequences and control bytes; tabs become spaces.
pub fn strip_controls(s: &[u8]) -> (r: Vec<u8>)
    ensures
        r@ == strip_controls_spec(s@),
{
    let n = s.len();
    let mut out: Vec<u8> = Vec::new();
    let mut esc = false;
    let mut i: usize = 0;
    while i < n
        invariant
            n == s@.len(),
            0 <= i <= n,
            strip_from(s@, 0, false) == out@ + strip_from(s@, i as int, esc),
        decreases n - i,
    {
        let b = s[i];
        if esc {
            if 0x40 <= b && b <= 0x7e {
                esc = false;
            }
            i += 1;
        } else if b == 0x1b && i + 1 < n && s[i + 1] == 91 {
            esc = true;
            i += 2;
        } else if b == 9 {
            out.push(32);
            i += 1;
        } else if b < 32 || b == 127 {
            i += 1;
        } else {
            out.push(b);
            i += 1;
        }
        proof {
            assert(strip_from(s@, 0, false) == out@ + strip_from(s@, i as int, esc));
        }
    }
    proof {
        assert(strip_from(s@, n as int, esc) =~= Seq::<u8>::empty());
        assert(out@ =~= out@ + Seq::<u8>::empty());
    }
    out
}

// ---------------------------------------------------------------------------
// Pass 2: volatile masking.
// ---------------------------------------------------------------------------

/// Length of the run of decimal digits starting at `i`.
pub open spec fn digit_run(s: Seq<u8>, i: int) -> int
    decreases s.len() - i,
{
    if i < 0 || i >= s.len() || !is_digit(s[i]) {
        0
    } else {
        1 + digit_run(s, i + 1)
    }
}

/// Length of the run of lower-case hex digits starting at `i`.
pub open spec fn hex_run(s: Seq<u8>, i: int) -> int
    decreases s.len() - i,
{
    if i < 0 || i >= s.len() || !is_hex(s[i]) {
        0
    } else {
        1 + hex_run(s, i + 1)
    }
}

/// Length of the run of non-space bytes starting at `i`.
pub open spec fn nonspace_run(s: Seq<u8>, i: int) -> int
    decreases s.len() - i,
{
    if i < 0 || i >= s.len() || is_space(s[i]) {
        0
    } else {
        1 + nonspace_run(s, i + 1)
    }
}

/// `n` decimal digits stand at positions `i..i+n`.
pub open spec fn digits_at(s: Seq<u8>, i: int, n: int) -> bool {
    &&& i >= 0
    &&& i + n <= s.len()
    &&& forall|j: int| i <= j < i + n ==> is_digit(#[trigger] s[j])
}

/// `YYYY-MM-DD` at position `i`.
pub open spec fn date_at(s: Seq<u8>, i: int) -> bool {
    &&& digits_at(s, i, 4)
    &&& i + 10 <= s.len()
    &&& s[i + 4] == 45
    &&& digits_at(s, i + 5, 2)
    &&& s[i + 7] == 45
    &&& digits_at(s, i + 8, 2)
}

/// `HH:MM:SS` at position `i`.
pub open spec fn time_at(s: Seq<u8>, i: int) -> bool {
    &&& digits_at(s, i, 2)
    &&& i + 8 <= s.len()
    &&& s[i + 2] == 58
    &&& digits_at(s, i + 3, 2)
    &&& s[i + 5] == 58
    &&& digits_at(s, i + 6, 2)
}

/// Length of the ISO-8601-like timestamp starting at `i`, or 0: a date, a
/// time, or a date and time joined by `T` or a space, with an optional
/// trailing `Z`.
pub open spec fn ts_len_at(s: Seq<u8>, i: int) -> int {
    if date_at(s, i) && i + 11 <= s.len() && (s[i + 10] == 84 || s[i + 10] == 32) && time_at(
        s,
        i + 11,
    ) {
        if i + 20 <= s.len() && s[i + 19] == 90 {
            20
        } else {
            19
        }
    } else if date_at(s, i) {
        10
    } else if time_at(s, i) {
        8
    } else {
        0
    }
}

/// Length of the `/tmp/`-rooted path token starting at `i`, or 0.
pub open spec fn path_len_at(s: Seq<u8>, i: int) -> int {
    if i >= 0 && i + 5 <= s.len() && s[i] == 47 && s[i + 1] == 116 && s[i + 2] == 109 && s[i + 3]
        == 112 && s[i + 4] == 47 {
        5 + nonspace_run(s, i + 5)
    } else {
        0
    }
}

pub open spec fn ts_token() -> Seq<u8> {
    seq![35u8, 84u8]
}

pub open spec fn path_token() -> Seq<u8> {
    seq![35u8, 80u8]
}

pub open spec fn hex_token() -> Seq<u8> {
    seq![35u8, 72u8]
}

pub open spec fn num_token() -> Seq<u8> {
    seq![35u8, 78u8]
}

/// Remainder of the masking pass from position `i`. At each position the
/// matchers apply in fixed priority: timestamp, temp path, hex run, decimal
/// run; on a match the placeholder is emitted and the matched bytes skipped.
pub open spec fn mask_from(s: Seq<u8>, i: int) -> Seq<u8>
    decreases s.len() - i,
{
    if i < 0 || i >= s.len() {
        Seq::empty()
    } else if ts_len_at(s, i) >= 8 && i + ts_len_at(s, i) <= s.len() {
        ts_token() + mask_from(s, i + ts_len_at(s, i))
    } else if path_len_at(s, i) >= 5 && i + path_len_at(s, i) <= s.len() {
        path_token() + mask_from(s, i + path_len_at(s, i))
    } else if hex_run(s, i) >= 6 && i + hex_run(s, i) <= s.len() {
        hex_token() + mask_from(s, i + hex_run(s, i))
    } else if digit_run(s, i) >= 3 && i + digit_run(s, i) <= s.len() {
        num_token() + mask_from(s, i + digit_run(s, i))
    } else {
        seq![s[i]] + mask_from(s, i + 1)
    }
}

pub open spec fn mask_volatile_spec(s: Seq<u8>) -> Seq<u8> {
    mask_from(s, 0)
}

proof fn lemma_digit_run_bounds(s: Seq<u8>, i: int)
    requires
        0 <= i <= s.len(),
    ensures
        0 <= digit_run(s, i) <= s.len() - i,
    decreases s.len() - i,
{
    if i < s.len() && is_digit(s[i]) {
        lemma_digit_run_bounds(s, i + 1);
    }
}

proof fn lemma_hex_run_bounds(s: Seq<u8>, i: int)
    requires
        0 <= i <= s.len(),
    ensures
        0 <= hex_run(s, i) <= s.len() - i,
    decreases s.len() - i,
{
    if i < s.len() && is_hex(s[i]) {
        lemma_hex_run_bounds(s, i + 1);
    }
}

proof fn lemma_nonspace_run_bounds(s: Seq<u8>, i: int)
    requires
        0 <= i <= s.len(),
    ensures
        0 <= nonspace_run(s, i) <= s.len() - i,
    decreases s.len() - i,
{
    if i < s.len() && !is_space(s[i]) {
        lemma_nonspace_run_bounds(s, i + 1);
    }
}

/// Exact length of the digit run starting at `i`.
fn digit_run_exec(s: &[u8], i: usize) -> (r: usize)
    requires
        i <= s@.len(),
    ensures
        r == digit_run(s@, i as int),
        i + r <= s@.len(),
{
    let n = s.len();
    let mut j: usize = i;
    while j < n && s[j] >= 48 && s[j] <= 57
        invariant
            n == s@.len(),
            i <= j <= n,
            digit_run(s@, i as int) == (j - i) + digit_run(s@, j as int),
        decreases n - j,
    {
        j += 1;
    }
    proof {
        lemma_digit_run_bounds(s@, j as int);
    }
    j - i
}

/// Exact length of the lower-case hex run starting at `i`.
fn hex_run_exec(s: &[u8], i: usize) -> (r: usize)
    requires
        i <= s@.len(),
    ensures
        r == hex_run(s@, i as int),
        i + r <= s@.len(),
{
    let n = s.len();
    let mut j: usize = i;
    while j < n && ((s[j] >= 48 && s[j] <= 57) || (s[j] >= 97 && s[j] <= 102))
        invariant
            n == s@.len(),
            i <= j <= n,
            hex_run(s@, i as int) == (j - i) + hex_run(s@, j as int),
        decreases n - j,
    {
        j += 1;
    }
    proof {
        lemma_hex_run_bounds(s@, j as int);
    }
    j - i
}

/// Exact length of the non-space run starting at `i`.
fn nonspace_run_exec(s: &[u8], i: usize) -> (r: usize)
    requires
        i <= s@.len(),
    ensures
        r == nonspace_run(s@, i as int),
        i + r <= s@.len(),
{
    let n = s.len();
    let mut j: usize = i;
    while j < n && s[j] != 32
        invariant
            n == s@.len(),
            i <= j <= n,
            nonspace_run(s@, i as int) == (j - i) + nonspace_run(s@, j as int),
        decreases n - j,
    {
        j += 1;
    }
    proof {
        lemma_nonspace_run_bounds(s@, j as int);
    }
    j - i
}

/// Whether `n` digits stand at `i..i+n`.
fn digits_at_exec(s: &[u8], i: usize, n: usize) -> (r: bool)
    requires
        i + n <= s@.len(),
    ensures
        r == digits_at(s@, i as int, n as int),
{
    let sl = s.len();
    let end: usize = i + n;
    let mut j: usize = i;
    while j < end
        invariant
            end == i + n <= s@.len(),
            i <= j <= end,
            forall|k: int| i <= k < j ==> is_digit(#[trigger] s@[k]),
        decreases end - j,
    {
        let b = s[j];
        if b < 48 || b > 57 {
            return false;
        }
        j += 1;
    }
    true
}

/// Exact length of the timestamp starting at `i`, or 0.
fn ts_len_exec(s: &[u8], i: usize) -> (r: usize)
    requires
        i <= s@.len(),
    ensures
        r == ts_len_at(s@, i as int),
{
    let n = s.len();
    let date = n - i >= 10 && digits_at_exec(s, i, 4) && s[i + 4] == 45 && digits_at_exec(
        s,
        i + 5,
        2,
    ) && s[i + 7] == 45 && digits_at_exec(s, i + 8, 2);
    proof {
        if n - i < 10 {
            assert(!date_at(s@, i as int));
        }
        assert(date == date_at(s@, i as int));
    }
    if date {
        let dt = n - i >= 19 && (s[i + 10] == 84 || s[i + 10] == 32) && digits_at_exec(
            s,
            i + 11,
            2,
        ) && s[i + 13] == 58 && digits_at_exec(s, i + 14, 2) && s[i + 16] == 58 && digits_at_exec(
            s,
            i + 17,
            2,
        );
        proof {
            if n - i < 19 {
                assert(!(i + 11 + 8 <= n));
                assert(!time_at(s@, i as int + 11));
            }
            assert(dt == ((i + 11 <= s@.len() && (s@[i as int + 10] == 84 || s@[i as int + 10]
                == 32)) && time_at(s@, i as int + 11)));
        }
        if dt {
            if n - i >= 20 && s[i + 19] == 90 {
                20
            } else {
                19
            }
        } else {
            10
        }
    } else {
        let t = n - i >= 8 && digits_at_exec(s, i, 2) && s[i + 2] == 58 && digits_at_exec(
            s,
            i + 3,
            2,
        ) && s[i + 5] == 58 && digits_at_exec(s, i + 6, 2);
        proof {
            if n - i < 8 {
                assert(!time_at(s@, i as int));
            }
            assert(t == time_at(s@, i as int));
        }
        if t {
            8
        } else {
            0
        }
    }
}

/// Exact length of the temp-path token starting at `i`, or 0.
fn path_len_exec(s: &[u8], i: usize) -> (r: usize)
    requires
        i <= s@.len(),
    ensures
        r == path_len_at(s@, i as int),
        i + r <= s@.len(),
{
    let n = s.len();
    if n - i >= 5 && s[i] == 47 && s[i + 1] == 116 && s[i + 2] == 109 && s[i + 3] == 112 && s[i
        + 4] == 47 {
        let run = nonspace_run_exec(s, i + 5);
        5 + run
    } else {
        0
    }
}

/// Replaces volatile substrings with fixed placeholder tokens.
pub fn mask_volatile(s: &[u8]) -> (r: Vec<u8>)
    ensures
        r@ == mask_volatile_spec(s@),
{
    let n = s.len();
    let mut out: Vec<u8> = Vec::new();
    let mut i: usize = 0;
    while i < n
        invariant
            n == s@.len(),
            0 <= i <= n,
            mask_from(s@, 0) == out@ + mask_from(s@, i as int),
        decreases n - i,
    {
        let tl = ts_len_exec(s, i);
        if tl >= 8 {
            proof {
                assert(i + ts_len_at(s@, i as int) <= n);
            }
            out.push(35);
            out.push(84);
            i += tl;
        } else {
            let pl = path_len_exec(s, i);
            if pl >= 5 {
                out.push(35);
                out.push(80);
                i += pl;
            } else {
                let hl = hex_run_exec(s, i);
                if hl >= 6 {
                    out.push(35);
                    out.push(72);
                    i += hl;
                } else {
                    let dl = digit_run_exec(s, i);
                    if dl >= 3 {
                        out.push(35);
                        out.push(78);
                        i += dl;
                    } else {
                        out.push(s[i]);
                        i += 1;
                    }
                }
            }
        }
        proof {
            assert(mask_from(s@, 0) =~= out@ + mask_from(s@, i as int));
        }
    }
    proof {
        assert(mask_from(s@, n as int) =~= Seq::<u8>::empty());
        assert(out@ =~= out@ + Seq::<u8>::empty());
    }
    out
}

// ---------------------------------------------------------------------------
// Pass 3: whitespace collapse.
// ---------------------------------------------------------------------------

/// Remainder of the collapse pass from `i`: `started` says whether a word
/// was already emitted, `pending` whether a separating space is owed before
/// the next word. Trailing spaces are never emitted.
pub open spec fn collapse_from(s: Seq<u8>, i: int, started: bool, pending: bool) -> Seq<u8>
    decreases s.len() - i,
{
    if i < 0 || i >= s.len() {
        Seq::empty()
    } else if is_space(s[i]) {
        collapse_from(s, i + 1, started, started)
    } else {
        (if pending {
            seq![32u8]
        } else {
            Seq::empty()
        }) + seq![s[i]] + collapse_from(s, i + 1, true, false)
    }
}

pub open spec fn collapse_ws_spec(s: Seq<u8>) -> Seq<u8> {
    collapse_from(s, 0, false, false)
}

/// Collapses space runs to one space and trims both ends.
pub fn collapse_ws(s: &[u8]) -> (r: Vec<u8>)
    ensures
        r@ == collapse_ws_spec(s@),
{
    let n = s.len();
    let mut out: Vec<u8> = Vec::new();
    let mut started = false;
    let mut pending = false;
    let mut i: usize = 0;
    while i < n
        invariant
            n == s@.len(),
            0 <= i <= n,
            collapse_from(s@, 0, false, false) == out@ + collapse_from(
                s@,
                i as int,
                started,
                pending,
            ),
        decreases n - i,
    {
        let b = s[i];
        if b == 32 {
            pending = started;
        } else {
            if pending {
                out.push(32);
            }
            out.push(b);
            started = true;
            pending = false;
        }
        i += 1;
        proof {
            assert(collapse_from(s@, 0, false, false) =~= out@ + collapse_from(
                s@,
                i as int,
                started,
                pending,
            ));
        }
    }
    proof {
        assert(collapse_from(s@, n as int, started, pending) =~= Seq::<u8>::empty());
        assert(out@ =~= out@ + Seq::<u8>::empty());
    }
    out
}

// ---------------------------------------------------------------------------
// Signatures and line splitting.
// ---------------------------------------------------------------------------

/// The normalized signature of one physical log line.
pub open spec fn sig_of(line: Seq<u8>) -> Seq<u8> {
    collapse_ws_spec(mask_volatile_spec(strip_controls_spec(line)))
}

/// Computes the signature of one line: strip, mask, collapse.
pub fn signature_of_line(line: &[u8]) -> (r: Vec<u8>)
    ensures
        r@ == sig_of(line@),
{
    let stripped = strip_controls(line);
    let masked = mask_volatile(stripped.as_slice());
    collapse_ws(masked.as_slice())
}

/// Records of `s` delimited by newline bytes, scanning from `i` with the
/// current record starting at `start`; a final record without a trailing
/// newline counts, an empty tail after a final newline does not.
pub open spec fn split_rec(s: Seq<u8>, i: int, start: int) -> Seq<Seq<u8>>
    decreases s.len() - i,
{
    if i < start || start < 0 || i > s.len() {
        Seq::empty()
    } else if i >= s.len() {
        if start < s.len() {
            seq![s.subrange(start, s.len() as int)]
        } else {
            Seq::empty()
        }
    } else if s[i] == 10 {
        seq![s.subrange(start, i)] + split_rec(s, i + 1, i + 1)
    } else {
        split_rec(s, i + 1, start)
    }
}

/// The physical lines of a raw log.
pub open spec fn split_lines(s: Seq<u8>) -> Seq<Seq<u8>> {
    split_rec(s, 0, 0)
}

/// The signature sequence of a raw log, one per physical line.
pub open spec fn sig_seq(log: Seq<u8>) -> Seq<Seq<u8>> {
    split_lines(log).map_values(|l: Seq<u8>| sig_of(l))
}

/// Splits a raw log into its physical lines (newline-delimited; the newline
/// itself belongs to no line).
pub fn split_log_lines(log: &[u8]) -> (r: Vec<Vec<u8>>)
    ensures
        r@.map_values(|l: Vec<u8>| l@) == split_lines(log@),
{
    let n = log.len();
    let mut out: Vec<Vec<u8>> = Vec::new();
    let mut start: usize = 0;
    let mut i: usize = 0;
    while i < n
        invariant
            n == log@.len(),
            0 <= start <= i <= n,
            split_rec(log@, 0, 0) == out@.map_values(|l: Vec<u8>| l@) + split_rec(
                log@,
                i as int,
                start as int,
            ),
        decreases n - i,
    {
        if log[i] == 10 {
            let piece = vstd::slice::slice_subrange(log, start, i);
            let rec = vstd::slice::slice_to_vec(piece);
            out.push(rec);
            proof {
                assert(out@.map_values(|l: Vec<u8>| l@) =~= out@.drop_last().map_values(
                    |l: Vec<u8>| l@,
                ) + seq![log@.subrange(start as int, i as int)]);
            }
            start = i + 1;
        }
        i += 1;
        proof {
            assert(split_rec(log@, 0, 0) =~= out@.map_values(|l: Vec<u8>| l@) + split_rec(
                log@,
                i as int,
                start as int,
            ));
        }
    }
    if start < n {
        let piece = vstd::slice::slice_subrange(log, start, n);
        let rec = vstd::slice::slice_to_vec(piece);
        out.push(rec);
        proof {
            assert(out@.map_values(|l: Vec<u8>| l@) =~= out@.drop_last().map_values(
                |l: Vec<u8>| l@,
            ) + seq![log@.subrange(start as int, n as int)]);
        }
    }
    proof {
        assert(split_rec(log@, n as int, start as int) =~= if start < n {
            seq![log@.subrange(start as int, n as int)]
        } else {
            Seq::<Seq<u8>>::empty()
        });
        assert(out@.map_values(|l: Vec<u8>| l@) =~= split_rec(log@, 0, 0));
    }
    out
}

/// Tokenizes a raw log: one signature per physical line, in order.
pub fn signatures_of_log(log: &[u8]) -> (r: Vec<Vec<u8>>)
    ensures
        r@.map_values(|l: Vec<u8>| l@) == sig_seq(log@),
{
    let lines = split_log_lines(log);
    let n = lines.len();
    let mut out: Vec<Vec<u8>> = Vec::new();
    let mut i: usize = 0;
    while i < n
        invariant
            n == lines@.len(),
            0 <= i <= n,
            lines@.map_values(|l: Vec<u8>| l@) == split_lines(log@),
            out@.map_values(|l: Vec<u8>| l@) =~= split_lines(log@).take(i as int).map_values(
                |l: Seq<u8>| sig_of(l),
            ),
        decreases n - i,
    {
        let ghost prev = out@;
        let s = signature_of_line(lines[i].as_slice());
        proof {
            assert(lines@.map_values(|l: Vec<u8>| l@)[i as int] == lines@[i as int]@);
            assert(s@ == sig_of(split_lines(log@)[i as int]));
        }
        out.push(s);
        proof {
            let f = |l: Vec<u8>| l@;
            let g = |l: Seq<u8>| sig_of(l);
            assert(out@ =~= prev.push(s));
            assert(out@.map_values(f) =~= prev.map_values(f).push(s@));
            assert(split_lines(log@).take(i + 1).map_values(g) =~= split_lines(log@).take(
                i as int,
            ).map_values(g).push(g(split_lines(log@)[i as int])));
            assert(out@.map_values(f) =~= split_lines(log@).take(i + 1).map_values(g));
        }
        i += 1;
    }
    proof {
        assert(split_lines(log@).take(n as int) =~= split_lines(log@));
    }
    out
}

// ---------------------------------------------------------------------------
// The normalization-collapse law.
// ---------------------------------------------------------------------------

/// Printable ASCII: bytes the control-stripping pass copies unchanged.
pub open spec fn printable(b: u8) -> bool {
    32 <= b <= 126
}

/// A byte that starts no volatile-token match: printable but no digit, no
/// lower-case hex letter, and no path opener.
pub open spec fn inert_byte(b: u8) -> bool {
    &&& printable(b)
    &&& !is_hex(b)
    &&& b != 47
}

/// A full 20-byte timestamp: date, `T` or space, time, trailing `Z`.
pub open spec fn is_ts20(t: Seq<u8>) -> bool {
    &&& t.len() == 20
    &&& date_at(t, 0)
    &&& (t[10] == 84 || t[10] == 32)
    &&& time_at(t, 11)
    &&& t[19] == 90
}

/// Every byte of a full timestamp is printable.
proof fn lemma_ts20_printable(t: Seq<u8>)
    requires
        is_ts20(t),
    ensures
        forall|j: int| 0 <= j < 20 ==> printable(#[trigger] t[j]),
{
    assert forall|j: int| 0 <= j < 20 implies printable(#[trigger] t[j]) by {
        if j == 4 || j == 7 || j == 10 || j == 13 || j == 16 || j == 19 {
        } else {
            assert(is_digit(t[j]));
        }
    }
}

/// The stripping pass copies a printable stretch verbatim.
proof fn lemma_strip_printable_prefix(s: Seq<u8>, i: int, k: int)
    requires
        0 <= i <= k <= s.len(),
        forall|j: int| i <= j < k ==> printable(#[trigger] s[j]),
    ensures
        strip_from(s, i, false) == s.subrange(i, k) + strip_from(s, k, false),
    decreases k - i,
{
    if i == k {
        assert(s.subrange(i, k) =~= Seq::<u8>::empty());
        assert(s.subrange(i, k) + strip_from(s, k, false) =~= strip_from(s, k, false));
    } else {
        lemma_strip_printable_prefix(s, i + 1, k);
        assert(strip_from(s, i, false) == seq![s[i]] + strip_from(s, i + 1, false));
        assert(seq![s[i]] + (s.subrange(i + 1, k) + strip_from(s, k, false)) =~= s.subrange(
            i,
            k,
        ) + strip_from(s, k, false));
    }
}

/// The stripping pass reads nothing before its position: agreeing suffixes
/// strip alike.
proof fn lemma_strip_suffix_eq(s1: Seq<u8>, s2: Seq<u8>, i: int, esc: bool)
    requires
        s1.len() == s2.len(),
        forall|j: int| i <= j < s1.len() ==> s1[j] == #[trigger] s2[j],
    ensures
        strip_from(s1, i, esc) == strip_from(s2, i, esc),
    decreases s1.len() - i,
{
    if 0 <= i < s1.len() {
        if esc {
            lemma_strip_suffix_eq(s1, s2, i + 1, !(0x40 <= s1[i] <= 0x7e));
        } else if s1[i] == 0x1b && i + 1 < s1.len() && s1[i + 1] == 91 {
            lemma_strip_suffix_eq(s1, s2, i + 2, true);
        } else {
            lemma_strip_suffix_eq(s1, s2, i + 1, false);
        }
    }
}

proof fn lemma_digit_run_suffix_eq(s1: Seq<u8>, s2: Seq<u8>, i: int)
    requires
        s1.len() == s2.len(),
        forall|j: int| i <= j < s1.len() ==> s1[j] == #[trigger] s2[j],
    ensures
        digit_run(s1, i) == digit_run(s2, i),
    decreases s1.len() - i,
{
    if 0 <= i < s1.len() && is_digit(s1[i]) {
        lemma_digit_run_suffix_eq(s1, s2, i + 1);
    }
}

proof fn lemma_hex_run_suffix_eq(s1: Seq<u8>, s2: Seq<u8>, i: int)
    requires
        s1.len() == s2.len(),
        forall|j: int| i <= j < s1.len() ==> s1[j] == #[trigger] s2[j],
    ensures
        hex_run(s1, i) == hex_run(s2, i),
    decreases s1.len() - i,
{
    if 0 <= i < s1.len() && is_hex(s1[i]) {
        lemma_hex_run_suffix_eq(s1, s2, i + 1);
    }
}

proof fn lemma_nonspace_run_suffix_eq(s1: Seq<u8>, s2: Seq<u8>, i: int)
    requires
        s1.len() == s2.len(),
        forall|j: int| i <= j < s1.len() ==> s1[j] == #[trigger] s2[j],
    ensures
        nonspace_run(s1, i) == nonspace_run(s2, i),
    decreases s1.len() - i,
{
    if 0 <= i < s1.len() && !is_space(s1[i]) {
        lemma_nonspace_run_suffix_eq(s1, s2, i + 1);
    }
}

/// Digit checks agree where the bytes agree.
proof fn lemma_digits_at_suffix_eq(s1: Seq<u8>, s2: Seq<u8>, i: int, a: int, n: int)
    requires
        s1.len() == s2.len(),
        forall|j: int| i <= j < s1.len() ==> s1[j] == #[trigger] s2[j],
        i <= a,
        n >= 0,
    ensures
        digits_at(s1, a, n) == digits_at(s2, a, n),
{
    if digits_at(s1, a, n) {
        assert forall|j: int| a <= j < a + n implies is_digit(#[trigger] s2[j]) by {
            assert(is_digit(s1[j]));
        }
    }
    if digits_at(s2, a, n) {
        assert forall|j: int| a <= j < a + n implies is_digit(#[trigger] s1[j]) by {
            assert(is_digit(s2[j]));
        }
    }
}

/// The masking pass reads nothing before its position either.
proof fn lemma_mask_suffix_eq(s1: Seq<u8>, s2: Seq<u8>, i: int)
    requires
        s1.len() == s2.len(),
        forall|j: int| i <= j < s1.len() ==> s1[j] == #[trigger] s2[j],
    ensures
        mask_from(s1, i) == mask_from(s2, i),
    decreases s1.len() - i,
{
    if 0 <= i < s1.len() {
        lemma_digits_at_suffix_eq(s1, s2, i, i, 4);
        lemma_digits_at_suffix_eq(s1, s2, i, i + 5, 2);
        lemma_digits_at_suffix_eq(s1, s2, i, i + 8, 2);
        assert(date_at(s1, i) == date_at(s2, i));
        lemma_digits_at_suffix_eq(s1, s2, i, i, 2);
        lemma_digits_at_suffix_eq(s1, s2, i, i + 3, 2);
        lemma_digits_at_suffix_eq(s1, s2, i, i + 6, 2);
        assert(time_at(s1, i) == time_at(s2, i));
        lemma_digits_at_suffix_eq(s1, s2, i, i + 11, 2);
        lemma_digits_at_suffix_eq(s1, s2, i, i + 14, 2);
        lemma_digits_at_suffix_eq(s1, s2, i, i + 17, 2);
        assert(time_at(s1, i + 11) == time_at(s2, i + 11));
        assert(ts_len_at(s1, i) == ts_len_at(s2, i));
        lemma_nonspace_run_suffix_eq(s1, s2, i + 5);
        assert(path_len_at(s1, i) == path_len_at(s2, i));
        lemma_hex_run_suffix_eq(s1, s2, i);
        lemma_digit_run_suffix_eq(s1, s2, i);
        if ts_len_at(s1, i) >= 8 && i + ts_len_at(s1, i) <= s1.len() {
            lemma_mask_suffix_eq(s1, s2, i + ts_len_at(s1, i));
        } else if path_len_at(s1, i) >= 5 && i + path_len_at(s1, i) <= s1.len() {
            lemma_mask_suffix_eq(s1, s2, i + path_len_at(s1, i));
        } else if hex_run(s1, i) >= 6 && i + hex_run(s1, i) <= s1.len() {
            lemma_mask_suffix_eq(s1, s2, i + hex_run(s1, i));
        } else if digit_run(s1, i) >= 3 && i + digit_run(s1, i) <= s1.len() {
            lemma_mask_suffix_eq(s1, s2, i + digit_run(s1, i));
        } else {
            lemma_mask_suffix_eq(s1, s2, i + 1);
        }
    }
}

/// The masking pass copies an inert stretch verbatim: no matcher fires on a
/// byte that is neither digit, hex letter nor path opener.
proof fn lemma_mask_inert_prefix(s: Seq<u8>, i: int, k: int)
    requires
        0 <= i <= k <= s.len(),
        forall|j: int| i <= j < k ==> inert_byte(#[trigger] s[j]),
    ensures
        mask_from(s, i) == s.subrange(i, k) + mask_from(s, k),
    decreases k - i,
{
    if i == k {
        assert(s.subrange(i, k) =~= Seq::<u8>::empty());
        assert(s.subrange(i, k) + mask_from(s, k) =~= mask_from(s, k));
    } else {
        assert(!is_digit(s[i]));
        assert(!date_at(s, i) && !time_at(s, i));
        assert(ts_len_at(s, i) == 0);
        assert(path_len_at(s, i) == 0);
        assert(hex_run(s, i) == 0);
        assert(digit_run(s, i) == 0);
        assert(mask_from(s, i) == seq![s[i]] + mask_from(s, i + 1));
        lemma_mask_inert_prefix(s, i + 1, k);
        assert(seq![s[i]] + (s.subrange(i + 1, k) + mask_from(s, k)) =~= s.subrange(i, k)
            + mask_from(s, k));
    }
}

/// A full timestamp after an inert prefix is matched whole.
proof fn lemma_mask_ts_at(s: Seq<u8>, i: int)
    requires
        0 <= i,
        i + 20 <= s.len(),
        is_ts20(s.subrange(i, i + 20)),
    ensures
        ts_len_at(s, i) == 20,
        mask_from(s, i) == ts_token() + mask_from(s, i + 20),
{
    let t = s.subrange(i, i + 20);
    assert forall|j: int| 0 <= j < 20 implies #[trigger] s[i + j] == t[j] by {}
    assert(date_at(s, i)) by {
        assert(s[i + 4] == t[4] && s[i + 7] == t[7]);
        assert forall|j: int| i <= j < i + 4 implies is_digit(#[trigger] s[j]) by {
            assert(s[j] == t[j - i]);
        }
        assert forall|j: int| i + 5 <= j < i + 7 implies is_digit(#[trigger] s[j]) by {
            assert(s[j] == t[j - i]);
        }
        assert forall|j: int| i + 8 <= j < i + 10 implies is_digit(#[trigger] s[j]) by {
            assert(s[j] == t[j - i]);
        }
    }
    assert(s[i + 10] == t[10]);
    assert(time_at(s, i + 11)) by {
        assert(s[i + 13] == t[13] && s[i + 16] == t[16]);
        assert forall|j: int| i + 11 <= j < i + 13 implies is_digit(#[trigger] s[j]) by {
            assert(s[j] == t[j - i]);
        }
        assert forall|j: int| i + 14 <= j < i + 16 implies is_digit(#[trigger] s[j]) by {
            assert(s[j] == t[j - i]);
        }
        assert forall|j: int| i + 17 <= j < i + 19 implies is_digit(#[trigger] s[j]) by {
            assert(s[j] == t[j - i]);
        }
    }
    assert(s[i + 19] == t[19]);
    assert(ts_len_at(s, i) == 20);
}

/// Two log lines that differ only in a full timestamp, standing after bytes
/// on which no volatile matcher can start, normalize to the same signature:
/// the frequency model treats them as one line.
pub proof fn lemma_timestamp_collapse(p: Seq<u8>, t1: Seq<u8>, t2: Seq<u8>, q: Seq<u8>)
    requires
        forall|j: int| 0 <= j < p.len() ==> inert_byte(#[trigger] p[j]),
        is_ts20(t1),
        is_ts20(t2),
    ensures
        sig_of(p + t1 + q) == sig_of(p + t2 + q),
{
    let s1 = p + t1 + q;
    let s2 = p + t2 + q;
    let pl = p.len() as int;
    lemma_ts20_printable(t1);
    lemma_ts20_printable(t2);
    assert(s1.len() == s2.len());
    assert forall|j: int| 0 <= j < pl + 20 implies printable(#[trigger] s1[j]) by {
        if j < pl {
            assert(s1[j] == p[j]);
        } else {
            assert(s1[j] == t1[j - pl]);
        }
    }
    assert forall|j: int| 0 <= j < pl + 20 implies printable(#[trigger] s2[j]) by {
        if j < pl {
            assert(s2[j] == p[j]);
        } else {
            assert(s2[j] == t2[j - pl]);
        }
    }
    assert forall|j: int| pl + 20 <= j < s1.len() implies s1[j] == #[trigger] s2[j] by {
        assert(s1[j] == q[j - pl - 20] && s2[j] == q[j - pl - 20]);
    }
    // Pass 1 copies the prefix and timestamp, and agrees on the tail.
    lemma_strip_printable_prefix(s1, 0, pl + 20);
    lemma_strip_printable_prefix(s2, 0, pl + 20);
    lemma_strip_suffix_eq(s1, s2, pl + 20, false);
    let rest = strip_from(s1, pl + 20, false);
    let u1 = strip_controls_spec(s1);
    let u2 = strip_controls_spec(s2);
    assert(u1 =~= (p + t1) + rest) by {
        assert(s1.subrange(0, pl + 20) =~= p + t1);
    }
    assert(u2 =~= (p + t2) + rest) by {
        assert(s2.subrange(0, pl + 20) =~= p + t2);
    }
    // Pass 2 copies the inert prefix, masks both timestamps to one token,
    // and agrees on the tail.
    assert(u1.len() == u2.len());
    assert forall|j: int| 0 <= j < pl implies inert_byte(#[trigger] u1[j]) && u1[j] == u2[j] by {
        assert(u1[j] == p[j] && u2[j] == p[j]);
    }
    lemma_mask_inert_prefix(u1, 0, pl);
    lemma_mask_inert_prefix(u2, 0, pl);
    assert(u1.subrange(pl, pl + 20) =~= t1);
    assert(u2.subrange(pl, pl + 20) =~= t2);
    lemma_mask_ts_at(u1, pl);
    lemma_mask_ts_at(u2, pl);
    assert forall|j: int| pl + 20 <= j < u1.len() implies u1[j] == #[trigger] u2[j] by {
        assert(u1[j] == rest[j - pl - 20] && u2[j] == rest[j - pl - 20]);
    }
    lemma_mask_suffix_eq(u1, u2, pl + 20);
    assert(u1.subrange(0, pl) =~= p);
    assert(u2.subrange(0, pl) =~= p);
    assert(mask_volatile_spec(u1) == mask_volatile_spec(u2)) by {
        assert(mask_from(u1, 0) == p + (ts_token() + mask_from(u1, pl + 20)));
        assert(mask_from(u2, 0) == p + (ts_token() + mask_from(u2, pl + 20)));
    }
}

} // verus!
