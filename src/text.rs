use vstd::prelude::*;

verus! {

pub const LINE_FEED: u8 = 10;

pub const SPACE: u8 = 32;

/// The ASCII decimal digits of `n`, most significant first, without sign or leading zeros.
pub open spec fn decimal_digits(n: nat) -> Seq<u8>
    decreases n,
{
    if n < 10 {
        seq![(48 + n) as u8]
    } else {
        decimal_digits(n / 10).push((48 + n % 10) as u8)
    }
}

/// Every stretch of `s` that holds no line feed is at most `max` bytes long.
#[verifier::opaque]
pub open spec fn lines_within(s: Seq<u8>, max: nat) -> bool {
    forall|i: int, j: int|
        0 <= i <= j <= s.len() && !(#[trigger] s.subrange(i, j)).contains(LINE_FEED) ==> j - i <= max
}

/// The last line of `s`, the bytes after its last line feed, is `len` bytes long.
#[verifier::opaque]
pub open spec fn last_line_len(s: Seq<u8>, len: nat) -> bool {
    &&& len <= s.len()
    &&& !s.subrange(s.len() - len, s.len() as int).contains(LINE_FEED)
    &&& len < s.len() ==> s[s.len() - len - 1] == LINE_FEED
}

/// Relies on itoa::Buffer::format, which writes an unsigned integer in decimal: its
/// digits, most significant first, with no sign and no leading zeros.
#[verifier::external_body]
pub(crate) fn decimal(n: u64) -> (r: Vec<u8>)
    ensures
        r@ == decimal_digits(n as nat),
{
    let mut buffer = itoa::Buffer::new();
    buffer.format(n).as_bytes().to_vec()
}

/// Decimal digits are never line feeds, and there is at least one.
pub proof fn lemma_decimal_digits(n: nat)
    ensures
        decimal_digits(n).len() >= 1,
        !decimal_digits(n).contains(LINE_FEED),
        forall|i: int| 0 <= i < decimal_digits(n).len() ==> 48 <= #[trigger] decimal_digits(n)[i] <= 57,
    decreases n,
{
    if n >= 10 {
        lemma_decimal_digits(n / 10);
    }
    let d = decimal_digits(n);
    assert forall|i: int| 0 <= i < d.len() implies 48 <= #[trigger] d[i] <= 57 by {
        if n >= 10 && i < d.len() - 1 {
            assert(d[i] == decimal_digits(n / 10)[i]);
        }
    }
    if d.contains(LINE_FEED) {
        let k = choose|k: int| 0 <= k < d.len() && d[k] == LINE_FEED;
        assert(48 <= d[k]);
    }
}

/// A number below `10^k`, for `k >= 1`, has at most `k` digits.
pub proof fn lemma_decimal_digits_len(n: nat, k: nat)
    requires
        k >= 1,
        n < pow10(k),
    ensures
        decimal_digits(n).len() <= k,
    decreases k,
{
    if n >= 10 {
        assert(k >= 2) by {
            if k == 1 {
                reveal_with_fuel(pow10, 2);
            }
        }
        assert(pow10(k) == 10 * pow10((k - 1) as nat));
        assert(n / 10 < pow10((k - 1) as nat));
        lemma_decimal_digits_len(n / 10, (k - 1) as nat);
    }
}

/// Ten to the power `k`.
pub open spec fn pow10(k: nat) -> nat
    decreases k,
{
    if k == 0 {
        1
    } else {
        10 * pow10((k - 1) as nat)
    }
}

/// A byte value has at most three digits; a 64-bit value at most twenty.
pub proof fn lemma_decimal_digits_bounds(n: nat)
    ensures
        n <= 255 ==> decimal_digits(n).len() <= 3,
        n <= u64::MAX ==> decimal_digits(n).len() <= 20,
{
    reveal_with_fuel(pow10, 21);
    if n <= 255 {
        lemma_decimal_digits_len(n, 3);
    }
    if n <= u64::MAX {
        lemma_decimal_digits_len(n, 20);
    }
}

/// Appending bytes without a line feed lengthens the last line by their number, and keeps
/// every line within `max` as long as the last one stays within it.
pub proof fn lemma_extend_line(s: Seq<u8>, len: nat, u: Seq<u8>, max: nat)
    requires
        lines_within(s, max),
        last_line_len(s, len),
        !u.contains(LINE_FEED),
        len + u.len() <= max,
    ensures
        lines_within(s + u, max),
        last_line_len(s + u, len + u.len()),
{
    reveal(lines_within);
    reveal(last_line_len);
    let t = s + u;
    let start = s.len() - len;
    assert forall|i: int, j: int|
        0 <= i <= j <= t.len() && !(#[trigger] t.subrange(i, j)).contains(LINE_FEED) implies j - i
        <= max by {
        if j <= s.len() {
            assert(t.subrange(i, j) =~= s.subrange(i, j));
        } else if i < start {
            assert(t.subrange(i, j)[start - 1 - i] == LINE_FEED);
        }
    }
    let tail = t.subrange(start, t.len() as int);
    if tail.contains(LINE_FEED) {
        let k = choose|k: int| 0 <= k < tail.len() && tail[k] == LINE_FEED;
        if k < len {
            assert(s.subrange(start, s.len() as int)[k] == LINE_FEED);
        } else {
            assert(u[k - len] == LINE_FEED);
        }
    }
}

/// A line feed ends the last line.
pub proof fn lemma_end_line(s: Seq<u8>, max: nat)
    requires
        lines_within(s, max),
    ensures
        lines_within(s.push(LINE_FEED), max),
        last_line_len(s.push(LINE_FEED), 0),
{
    reveal(lines_within);
    reveal(last_line_len);
    let t = s.push(LINE_FEED);
    assert forall|i: int, j: int|
        0 <= i <= j <= t.len() && !(#[trigger] t.subrange(i, j)).contains(LINE_FEED) implies j - i
        <= max by {
        if j <= s.len() {
            assert(t.subrange(i, j) =~= s.subrange(i, j));
        } else if i < j {
            assert(t.subrange(i, j)[s.len() - i] == LINE_FEED);
        }
    }
    assert(t.subrange(t.len() as int, t.len() as int) =~= Seq::<u8>::empty());
}

} // verus!

verus! {

/// Nothing is the start of a text whose lines all fit.
pub proof fn lemma_empty_text(max: nat)
    ensures
        lines_within(Seq::empty(), max),
        last_line_len(Seq::empty(), 0),
{
    reveal(lines_within);
    reveal(last_line_len);
    let e = Seq::<u8>::empty();
    assert(e.subrange(0, 0) =~= e);
}

/// A text that ends with an empty line ends with a line feed.
pub proof fn lemma_ends_with_line_feed(s: Seq<u8>)
    requires
        last_line_len(s, 0),
        s.len() > 0,
    ensures
        s.last() == LINE_FEED,
{
    reveal(last_line_len);
}

} // verus!
