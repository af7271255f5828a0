//! Searching byte sequences.
//!
//! The tokenizers in this crate are specified over `Seq<u8>`. The spec
//! functions here model "first position of a given byte", "first position of
//! a byte inside an inclusive range" and "first position of a two-byte
//! window"; the executable scanners are proved against them.

use vstd::prelude::*;

verus! {

/// First index `j >= i` with `s[j] == t`, or `None`.
pub open spec fn find_byte(s: Seq<u8>, i: int, t: u8) -> Option<int>
    decreases s.len() - i,
{
    if i < 0 || i >= s.len() {
        None
    } else if s[i] == t {
        Some(i)
    } else {
        find_byte(s, i + 1, t)
    }
}

/// First index `j >= i` with `lo <= s[j] <= hi`, or `None`.
pub open spec fn find_in_range(s: Seq<u8>, i: int, lo: u8, hi: u8) -> Option<int>
    decreases s.len() - i,
{
    if i < 0 || i >= s.len() {
        None
    } else if lo <= s[i] <= hi {
        Some(i)
    } else {
        find_in_range(s, i + 1, lo, hi)
    }
}

/// First index `j >= i` with `s[j] == a && s[j + 1] == b`, or `None`.
pub open spec fn find_window(s: Seq<u8>, i: int, a: u8, b: u8) -> Option<int>
    decreases s.len() - i,
{
    if i < 0 || i + 1 >= s.len() {
        None
    } else if s[i] == a && s[i + 1] == b {
        Some(i)
    } else {
        find_window(s, i + 1, a, b)
    }
}

/// What a result of `find_byte` means.
pub proof fn lemma_find_byte_spec(s: Seq<u8>, i: int, t: u8)
    requires
        0 <= i,
    ensures
        match find_byte(s, i, t) {
            Some(j) => i <= j < s.len() && s[j] == t && (forall|k: int|
                i <= k < j ==> s[k] != t),
            None => forall|k: int| i <= k < s.len() ==> s[k] != t,
        },
    decreases s.len() - i,
{
    if i < s.len() && s[i] != t {
        lemma_find_byte_spec(s, i + 1, t);
    }
}

/// What a result of `find_in_range` means.
pub proof fn lemma_find_in_range_spec(s: Seq<u8>, i: int, lo: u8, hi: u8)
    requires
        0 <= i,
    ensures
        match find_in_range(s, i, lo, hi) {
            Some(j) => i <= j < s.len() && lo <= s[j] <= hi && (forall|k: int|
                i <= k < j ==> !(lo <= #[trigger] s[k] <= hi)),
            None => forall|k: int| i <= k < s.len() ==> !(lo <= #[trigger] s[k] <= hi),
        },
    decreases s.len() - i,
{
    if i < s.len() && !(lo <= s[i] <= hi) {
        lemma_find_in_range_spec(s, i + 1, lo, hi);
    }
}

/// What a result of `find_window` means.
pub proof fn lemma_find_window_spec(s: Seq<u8>, i: int, a: u8, b: u8)
    requires
        0 <= i,
    ensures
        match find_window(s, i, a, b) {
            Some(j) => i <= j && j + 1 < s.len() && s[j] == a && s[j + 1] == b && (forall|k: int|
                i <= k < j ==> !(#[trigger] s[k] == a && s[k + 1] == b)),
            None => forall|k: int| i <= k && k + 1 < s.len() ==> !(#[trigger] s[k] == a && s[k
                + 1] == b),
        },
    decreases s.len() - i,
{
    if i + 1 < s.len() && !(s[i] == a && s[i + 1] == b) {
        lemma_find_window_spec(s, i + 1, a, b);
    }
}

/// A scan that saw no hit in `[i, j)` and a hit at `j` pins `find_byte`.
pub proof fn lemma_find_byte_is(s: Seq<u8>, i: int, j: int, t: u8)
    requires
        0 <= i <= j < s.len(),
        s[j] == t,
        forall|k: int| i <= k < j ==> s[k] != t,
    ensures
        find_byte(s, i, t) == Some(j),
    decreases j - i,
{
    if i < j {
        lemma_find_byte_is(s, i + 1, j, t);
    }
}

/// A scan that saw no hit anywhere from `i` on pins `find_byte` to `None`.
pub proof fn lemma_find_byte_is_none(s: Seq<u8>, i: int, t: u8)
    requires
        0 <= i,
        forall|k: int| i <= k < s.len() ==> s[k] != t,
    ensures
        find_byte(s, i, t) is None,
    decreases s.len() - i,
{
    if i < s.len() {
        lemma_find_byte_is_none(s, i + 1, t);
    }
}

/// A scan that saw no hit in `[i, j)` and a hit at `j` pins `find_in_range`.
pub proof fn lemma_find_in_range_is(s: Seq<u8>, i: int, j: int, lo: u8, hi: u8)
    requires
        0 <= i <= j < s.len(),
        lo <= s[j] <= hi,
        forall|k: int| i <= k < j ==> !(lo <= #[trigger] s[k] <= hi),
    ensures
        find_in_range(s, i, lo, hi) == Some(j),
    decreases j - i,
{
    if i < j {
        lemma_find_in_range_is(s, i + 1, j, lo, hi);
    }
}

/// A scan that saw no hit anywhere from `i` on pins `find_in_range` to `None`.
pub proof fn lemma_find_in_range_is_none(s: Seq<u8>, i: int, lo: u8, hi: u8)
    requires
        0 <= i,
        forall|k: int| i <= k < s.len() ==> !(lo <= #[trigger] s[k] <= hi),
    ensures
        find_in_range(s, i, lo, hi) is None,
    decreases s.len() - i,
{
    if i < s.len() {
        lemma_find_in_range_is_none(s, i + 1, lo, hi);
    }
}

/// A scan that saw no window in `[i, j)` and a window at `j` pins `find_window`.
pub proof fn lemma_find_window_is(s: Seq<u8>, i: int, j: int, a: u8, b: u8)
    requires
        0 <= i <= j,
        j + 1 < s.len(),
        s[j] == a && s[j + 1] == b,
        forall|k: int| i <= k < j ==> !(#[trigger] s[k] == a && s[k + 1] == b),
    ensures
        find_window(s, i, a, b) == Some(j),
    decreases j - i,
{
    if i < j {
        lemma_find_window_is(s, i + 1, j, a, b);
    }
}

/// A scan that saw no window anywhere from `i` on pins `find_window` to `None`.
pub proof fn lemma_find_window_is_none(s: Seq<u8>, i: int, a: u8, b: u8)
    requires
        0 <= i,
        forall|k: int| i <= k && k + 1 < s.len() ==> !(#[trigger] s[k] == a && s[k + 1] == b),
    ensures
        find_window(s, i, a, b) is None,
    decreases s.len() - i,
{
    if i + 1 < s.len() {
        lemma_find_window_is_none(s, i + 1, a, b);
    }
}

/// First occurrence of the byte `t` in `data` at or after `from`.
pub fn scan_byte(data: &[u8], from: usize, t: u8) -> (r: Option<usize>)
    ensures
        match r {
            Some(j) => from <= j < data@.len() && find_byte(data@, from as int, t) == Some(
                j as int,
            ),
            None => find_byte(data@, from as int, t) is None,
        },
{
    let mut k = from;
    while k < data.len()
        invariant
            from <= k,
            forall|j: int| from <= j < k ==> data@[j] != t,
        decreases data@.len() - k,
    {
        if data[k] == t {
            proof {
                lemma_find_byte_is(data@, from as int, k as int, t);
            }
            return Some(k);
        }
        k = k + 1;
    }
    proof {
        lemma_find_byte_is_none(data@, from as int, t);
    }
    None
}

/// First occurrence of a byte in `lo..=hi` in `data` at or after `from`.
pub fn scan_in_range(data: &[u8], from: usize, lo: u8, hi: u8) -> (r: Option<usize>)
    ensures
        match r {
            Some(j) => from <= j < data@.len() && find_in_range(data@, from as int, lo, hi)
                == Some(j as int),
            None => find_in_range(data@, from as int, lo, hi) is None,
        },
{
    let mut k = from;
    while k < data.len()
        invariant
            from <= k,
            forall|j: int| from <= j < k ==> !(lo <= #[trigger] data@[j] <= hi),
        decreases data@.len() - k,
    {
        if lo <= data[k] && data[k] <= hi {
            proof {
                lemma_find_in_range_is(data@, from as int, k as int, lo, hi);
            }
            return Some(k);
        }
        k = k + 1;
    }
    proof {
        lemma_find_in_range_is_none(data@, from as int, lo, hi);
    }
    None
}

/// First occurrence of the window `a b` in `data` at or after `from`.
pub fn scan_window(data: &[u8], from: usize, a: u8, b: u8) -> (r: Option<usize>)
    ensures
        match r {
            Some(j) => from <= j && j + 1 < data@.len() && find_window(data@, from as int, a, b)
                == Some(j as int),
            None => find_window(data@, from as int, a, b) is None,
        },
{
    let mut k = from;
    while k < data.len() && k + 1 < data.len()
        invariant
            from <= k,
            forall|j: int| from <= j < k ==> !(#[trigger] data@[j] == a && data@[j + 1] == b),
        decreases data@.len() - k,
    {
        if data[k] == a && data[k + 1] == b {
            proof {
                lemma_find_window_is(data@, from as int, k as int, a, b);
            }
            return Some(k);
        }
        k = k + 1;
    }
    proof {
        lemma_find_window_is_none(data@, from as int, a, b);
    }
    None
}

/// Append all of `bytes` to `out`.
pub fn push_bytes(out: &mut Vec<u8>, bytes: &[u8])
    ensures
        final (out)@ == old(out)@ + bytes@,
{
    let mut k: usize = 0;
    while k < bytes.len()
        invariant
            0 <= k <= bytes@.len(),
            out@ == old(out)@ + bytes@.take(k as int),
        decreases bytes@.len() - k,
    {
        out.push(bytes[k]);
        k = k + 1;
        proof {
            assert(out@ =~= old(out)@ + bytes@.take(k as int));
        }
    }
    proof {
        assert(bytes@.take(bytes@.len() as int) =~= bytes@);
    }
}

/// Whether two byte slices hold the same bytes.
pub fn bytes_eq(a: &[u8], b: &[u8]) -> (r: bool)
    ensures
        r <==> a@ == b@,
{
    if a.len() != b.len() {
        return false;
    }
    let mut k: usize = 0;
    while k < a.len()
        invariant
            a@.len() == b@.len(),
            0 <= k <= a@.len(),
            forall|j: int| 0 <= j < k ==> a@[j] == b@[j],
        decreases a@.len() - k,
    {
        if a[k] != b[k] {
            return false;
        }
        k = k + 1;
    }
    proof {
        assert(a@ =~= b@);
    }
    true
}

} // verus!

verus! {

/// First index `j >= i` with `s[j] == a && s[j + 1] == b && s[j + 2] == c`.
pub open spec fn find_window3(s: Seq<u8>, i: int, a: u8, b: u8, c: u8) -> Option<int>
    decreases s.len() - i,
{
    if i < 0 || i + 2 >= s.len() {
        None
    } else if s[i] == a && s[i + 1] == b && s[i + 2] == c {
        Some(i)
    } else {
        find_window3(s, i + 1, a, b, c)
    }
}

/// A scan that saw no window in `[i, j)` and a window at `j` pins `find_window3`.
pub proof fn lemma_find_window3_is(s: Seq<u8>, i: int, j: int, a: u8, b: u8, c: u8)
    requires
        0 <= i <= j,
        j + 2 < s.len(),
        s[j] == a && s[j + 1] == b && s[j + 2] == c,
        forall|k: int| i <= k < j ==> !(#[trigger] s[k] == a && s[k + 1] == b && s[k + 2] == c),
    ensures
        find_window3(s, i, a, b, c) == Some(j),
    decreases j - i,
{
    if i < j {
        lemma_find_window3_is(s, i + 1, j, a, b, c);
    }
}

/// A scan that saw no window anywhere from `i` on pins `find_window3` to `None`.
pub proof fn lemma_find_window3_is_none(s: Seq<u8>, i: int, a: u8, b: u8, c: u8)
    requires
        0 <= i,
        forall|k: int|
            i <= k && k + 2 < s.len() ==> !(#[trigger] s[k] == a && s[k + 1] == b && s[k + 2]
                == c),
    ensures
        find_window3(s, i, a, b, c) is None,
    decreases s.len() - i,
{
    if i + 2 < s.len() {
        lemma_find_window3_is_none(s, i + 1, a, b, c);
    }
}

/// First occurrence of the window `a b c` in `data` at or after `from`.
pub fn scan_window3(data: &[u8], from: usize, a: u8, b: u8, c: u8) -> (r: Option<usize>)
    ensures
        match r {
            Some(j) => from <= j && j + 2 < data@.len() && find_window3(
                data@,
                from as int,
                a,
                b,
                c,
            ) == Some(j as int),
            None => find_window3(data@, from as int, a, b, c) is None,
        },
{
    let mut k = from;
    while k < data.len() && data.len() - k > 2
        invariant
            from <= k,
            forall|j: int|
                from <= j < k ==> !(#[trigger] data@[j] == a && data@[j + 1] == b && data@[j + 2]
                    == c),
        decreases data@.len() - k,
    {
        if data[k] == a && data[k + 1] == b && data[k + 2] == c {
            proof {
                lemma_find_window3_is(data@, from as int, k as int, a, b, c);
            }
            return Some(k);
        }
        k = k + 1;
    }
    proof {
        lemma_find_window3_is_none(data@, from as int, a, b, c);
    }
    None
}

} // verus!

verus! {

/// Whether `b` is printable ASCII.
pub open spec fn is_graphic(b: u8) -> bool {
    0x21 <= b <= 0x7e
}

/// Whether every byte of `d` is printable ASCII.
pub open spec fn all_graphic(d: Seq<u8>) -> bool {
    forall|j: int| 0 <= j < d.len() ==> is_graphic(#[trigger] d[j])
}

/// Whether every byte of `d` is printable ASCII, with the result pinned.
pub fn scan_all_graphic(data: &[u8]) -> (r: bool)
    ensures
        r == all_graphic(data@),
{
    let mut k: usize = 0;
    while k < data.len()
        invariant
            k <= data@.len(),
            forall|j: int| 0 <= j < k ==> is_graphic(#[trigger] data@[j]),
        decreases data@.len() - k,
    {
        if !(0x21 <= data[k] && data[k] <= 0x7e) {
            return false;
        }
        k = k + 1;
    }
    true
}

/// The length of the run of bytes in `lo..=hi` starting at `i`.
pub open spec fn run_in_range(s: Seq<u8>, i: int, lo: u8, hi: u8) -> int
    decreases s.len() - i,
{
    if 0 <= i < s.len() && lo <= s[i] <= hi {
        1 + run_in_range(s, i + 1, lo, hi)
    } else {
        0
    }
}

/// A scan that saw only in-range bytes in `[i, j)` and then an out-of-range
/// byte (or the end) pins `run_in_range`.
pub proof fn lemma_run_in_range_is(s: Seq<u8>, i: int, j: int, lo: u8, hi: u8)
    requires
        0 <= i <= j <= s.len(),
        forall|k: int| i <= k < j ==> lo <= #[trigger] s[k] <= hi,
        j < s.len() ==> !(lo <= s[j] <= hi),
    ensures
        run_in_range(s, i, lo, hi) == j - i,
    decreases j - i,
{
    if i < j {
        lemma_run_in_range_is(s, i + 1, j, lo, hi);
    }
}

/// Largest index `j <= i` with the window `a b c` at `j`, or `None`.
pub open spec fn rfind_window3(s: Seq<u8>, i: int, a: u8, b: u8, c: u8) -> Option<int>
    decreases i + 1,
{
    if i < 0 {
        None
    } else if i + 2 < s.len() && s[i] == a && s[i + 1] == b && s[i + 2] == c {
        Some(i)
    } else {
        rfind_window3(s, i - 1, a, b, c)
    }
}

/// A scan that saw a window at `j` and none after it pins `rfind_window3`.
pub proof fn lemma_rfind_window3_is(s: Seq<u8>, i: int, j: int, a: u8, b: u8, c: u8)
    requires
        0 <= j <= i,
        j + 2 < s.len(),
        s[j] == a && s[j + 1] == b && s[j + 2] == c,
        forall|k: int|
            j < k <= i && k + 2 < s.len() ==> !(#[trigger] s[k] == a && s[k + 1] == b && s[k + 2]
                == c),
    ensures
        rfind_window3(s, i, a, b, c) == Some(j),
    decreases i - j,
{
    if j < i {
        lemma_rfind_window3_is(s, i - 1, j, a, b, c);
    }
}

/// A scan that saw no window at or before `i` pins `rfind_window3` to `None`.
pub proof fn lemma_rfind_window3_is_none(s: Seq<u8>, i: int, a: u8, b: u8, c: u8)
    requires
        forall|k: int|
            0 <= k <= i && k + 2 < s.len() ==> !(#[trigger] s[k] == a && s[k + 1] == b && s[k + 2]
                == c),
    ensures
        rfind_window3(s, i, a, b, c) is None,
    decreases i + 1,
{
    if i >= 0 {
        lemma_rfind_window3_is_none(s, i - 1, a, b, c);
    }
}

/// The rightmost occurrence of the window `a b c` in `data`.
pub fn scan_last_window3(data: &[u8], a: u8, b: u8, c: u8) -> (r: Option<usize>)
    ensures
        match r {
            Some(j) => j + 2 < data@.len() && rfind_window3(
                data@,
                data@.len() - 3,
                a,
                b,
                c,
            ) == Some(j as int),
            None => rfind_window3(data@, data@.len() - 3, a, b, c) is None,
        },
{
    let mut found: Option<usize> = None;
    let mut k: usize = 0;
    while k < data.len() && data.len() - k > 2
        invariant
            k <= data@.len(),
            match found {
                Some(m) => m + 2 < data@.len() && data@[m as int] == a && data@[m as int + 1] == b
                    && data@[m as int + 2] == c && (forall|j: int|
                    m < j < k ==> !(#[trigger] data@[j] == a && data@[j + 1] == b && data@[j + 2]
                        == c)),
                None => forall|j: int|
                    0 <= j < k ==> !(#[trigger] data@[j] == a && data@[j + 1] == b && data@[j + 2]
                        == c),
            },
        decreases data@.len() - k,
    {
        if data[k] == a && data[k + 1] == b && data[k + 2] == c {
            found = Some(k);
        }
        k = k + 1;
    }
    proof {
        match found {
            Some(m) => {
                lemma_rfind_window3_is(data@, data@.len() - 3, m as int, a, b, c);
            },
            None => {
                lemma_rfind_window3_is_none(data@, data@.len() - 3, a, b, c);
            },
        }
    }
    found
}

} // verus!
