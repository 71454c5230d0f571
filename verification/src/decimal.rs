//! Numbers as decimal text, written into a caller's buffer.

use vstd::prelude::*;

verus! {

/// The decimal digits of a number, without leading zeros.
pub open spec fn decimal(v: nat) -> Seq<u8>
    decreases v,
{
    if v < 10 {
        seq![(48 + v) as u8]
    } else {
        decimal(v / 10).push((48 + v % 10) as u8)
    }
}

/// A number of thousandths as a number with three decimal places.
pub open spec fn thousandths(milli: nat) -> Seq<u8> {
    let f = milli % 1000;
    decimal(milli / 1000) + seq![
        46u8,
        (48 + f / 100) as u8,
        (48 + f % 100 / 10) as u8,
        (48 + f % 10) as u8,
    ]
}

/// A buffer with a text written over it from `at` on.
pub open spec fn written(buf: Seq<u8>, at: int, text: Seq<u8>) -> Seq<u8> {
    buf.take(at) + text + buf.skip(at + text.len())
}

/// A number below ten to the power of `digits` has at most that many digits,
/// and every number has at least one.
pub proof fn lemma_decimal_len(v: nat, digits: nat)
    requires
        digits >= 1,
        v < pow10(digits),
    ensures
        1 <= decimal(v).len() <= digits,
    decreases digits,
{
    if v >= 10 {
        assert(pow10(1) == 10) by {
            reveal_with_fuel(pow10, 2);
        }
        lemma_decimal_len(v / 10, (digits - 1) as nat);
    }
}

/// Ten to the power of `n`.
pub open spec fn pow10(n: nat) -> nat
    decreases n,
{
    if n == 0 {
        1
    } else {
        10 * pow10((n - 1) as nat)
    }
}

/// Writes `value` at the start of `buf` as decimal and returns how many bytes
/// were used.
pub fn write_u64(buf: &mut [u8], value: u64) -> (n: usize)
    requires
        decimal(value as nat).len() <= old(buf)@.len(),
    ensures
        n == decimal(value as nat).len(),
        final(buf)@ == written(old(buf)@, 0, decimal(value as nat)),
{
    if value == 0 {
        buf[0] = 48;
        assert(buf@ =~= written(old(buf)@, 0, decimal(0)));
        return 1;
    }
    let mut digits: [u8; 20] = [0u8;20];
    let mut rest: u64 = value;
    let mut n: usize = 0;
    proof {
        reveal_with_fuel(pow10, 21);
    }
    while rest > 0
        invariant
            value > 0,
            n <= 20,
            rest < pow10((20 - n) as nat),
            pow10(0) == 1,
            n == 0 ==> rest == value,
            rest > 0 ==> decimal(value as nat) == decimal(rest as nat) + digits@.take(
                n as int,
            ).reverse(),
            rest == 0 ==> decimal(value as nat) == digits@.take(n as int).reverse(),
        decreases rest,
    {
        let ghost before = digits@;
        let ghost (rest0, n0) = (rest, n);
        digits[n] = 48 + (rest % 10) as u8;
        rest = rest / 10;
        n += 1;
        proof {
            let d: u8 = (48 + rest0 % 10) as u8;
            assert(digits@.take(n as int) =~= before.take(n0 as int).push(d));
            assert(digits@.take(n as int).reverse() =~= seq![d] + before.take(n0 as int).reverse());
            assert(decimal(value as nat) =~= if rest > 0 {
                decimal(rest as nat) + digits@.take(n as int).reverse()
            } else {
                digits@.take(n as int).reverse()
            });
        }
    }
    let ghost text = digits@.take(n as int).reverse();
    let mut i: usize = 0;
    while i < n
        invariant
            i <= n <= 20,
            text == digits@.take(n as int).reverse(),
            text.len() == n,
            n <= buf@.len(),
            buf@.len() == old(buf)@.len(),
            buf@ == text.take(i as int) + old(buf)@.skip(i as int),
        decreases n - i,
    {
        let ghost before = buf@;
        buf[i] = digits[n - 1 - i];
        i += 1;
        assert(buf@ =~= text.take(i as int) + old(buf)@.skip(i as int));
    }
    assert(buf@ =~= written(old(buf)@, 0, text));
    n
}

/// Appends `s` at `at` and returns the new write position.
pub fn put(buf: &mut [u8], at: usize, s: &[u8]) -> (end: usize)
    requires
        at + s@.len() <= old(buf)@.len(),
    ensures
        end == at + s@.len(),
        final(buf)@ == written(old(buf)@, at as int, s@),
{
    let mut i: usize = 0;
    assert(buf.len() <= usize::MAX);
    assert(buf@ =~= written(old(buf)@, at as int, s@.take(0)));
    while i < s.len()
        invariant
            i <= s@.len(),
            at + s@.len() <= buf@.len() <= usize::MAX,
            buf@.len() == old(buf)@.len(),
            buf@ == written(old(buf)@, at as int, s@.take(i as int)),
        decreases s@.len() - i,
    {
        buf[at + i] = s[i];
        i += 1;
        assert(buf@ =~= written(old(buf)@, at as int, s@.take(i as int)));
    }
    assert(s@.take(i as int) =~= s@);
    at + s.len()
}

/// Appends a number in decimal at `at` and returns the new write position.
pub fn put_u64(buf: &mut [u8], at: usize, value: u64) -> (end: usize)
    requires
        at + decimal(value as nat).len() <= old(buf)@.len(),
    ensures
        end == at + decimal(value as nat).len(),
        final(buf)@ == written(old(buf)@, at as int, decimal(value as nat)),
{
    assert(buf.len() <= usize::MAX);
    let (head, tail) = buf.split_at_mut(at);
    let n: usize = write_u64(tail, value);
    assert(buf@ =~= written(old(buf)@, at as int, decimal(value as nat)));
    at + n
}

/// Appends a number with three decimal places, given its value times 1000.
pub fn put_milli(buf: &mut [u8], at: usize, milli: u64) -> (end: usize)
    requires
        at + thousandths(milli as nat).len() <= old(buf)@.len(),
    ensures
        end == at + thousandths(milli as nat).len(),
        final(buf)@ == written(old(buf)@, at as int, thousandths(milli as nat)),
{
    let ghost start = buf@;
    let ghost mut text = decimal((milli / 1000) as nat);
    let frac: u64 = milli % 1000;
    proof {
        lemma_thousandths(milli as nat);
    }
    let mut pos: usize = put_u64(buf, at, milli / 1000);
    let dot: [u8; 1] = [46u8];
    let zero: [u8; 1] = [48u8];
    pos = put(buf, pos, &dot);
    proof {
        lemma_written_twice(start, at as int, text, dot@);
        text = text + dot@;
    }
    if frac < 100 {
        pos = put(buf, pos, &zero);
        proof {
            lemma_written_twice(start, at as int, text, zero@);
            text = text + zero@;
        }
    }
    if frac < 10 {
        pos = put(buf, pos, &zero);
        proof {
            lemma_written_twice(start, at as int, text, zero@);
            text = text + zero@;
        }
    }
    proof {
        lemma_written_twice(start, at as int, text, decimal(frac as nat));
        assert(text + decimal(frac as nat) =~= thousandths(milli as nat));
    }
    put_u64(buf, pos, frac)
}

/// Writing one text behind another writes the two together.
pub proof fn lemma_written_twice(buf: Seq<u8>, at: int, first: Seq<u8>, second: Seq<u8>)
    requires
        0 <= at,
        at + first.len() + second.len() <= buf.len(),
    ensures
        written(written(buf, at, first), at + first.len(), second) == written(
            buf,
            at,
            first + second,
        ),
        written(buf, at, first).len() == buf.len(),
{
    assert(written(written(buf, at, first), at + first.len(), second) =~= written(
        buf,
        at,
        first + second,
    ));
}

/// The three decimal places are the digits of the fraction behind as many
/// zeros as it takes.
proof fn lemma_thousandths(milli: nat)
    ensures
        thousandths(milli) == decimal(milli / 1000) + seq![46u8] + (if milli % 1000 < 100 {
            seq![48u8]
        } else {
            seq![]
        }) + (if milli % 1000 < 10 {
            seq![48u8]
        } else {
            seq![]
        }) + decimal(milli % 1000),
{
    let f: nat = milli % 1000;
    let head = decimal(milli / 1000);
    let tail = seq![(48 + f / 100) as u8, (48 + f % 100 / 10) as u8, (48 + f % 10) as u8];
    lemma_three_digits(f);
    assert(thousandths(milli) =~= head + seq![46u8] + tail);
    if f < 10 {
        assert(tail =~= seq![48u8] + seq![48u8] + decimal(f));
        assert(head + seq![46u8] + tail =~= head + seq![46u8] + seq![48u8] + seq![48u8] + decimal(f));
    } else if f < 100 {
        assert(tail =~= seq![48u8] + decimal(f));
        assert(head + seq![46u8] + tail =~= head + seq![46u8] + seq![48u8] + seq![] + decimal(f));
    } else {
        assert(tail =~= decimal(f));
        assert(head + seq![46u8] + tail =~= head + seq![46u8] + seq![] + seq![] + decimal(f));
    }
}

/// The digits of a number below a thousand.
proof fn lemma_three_digits(v: nat)
    requires
        v < 1000,
    ensures
        v < 10 ==> decimal(v) =~= seq![(48 + v) as u8],
        10 <= v < 100 ==> decimal(v) =~= seq![(48 + v / 10) as u8, (48 + v % 10) as u8],
        100 <= v ==> decimal(v) =~= seq![
            (48 + v / 100) as u8,
            (48 + v % 100 / 10) as u8,
            (48 + v % 10) as u8,
        ],
{
    reveal_with_fuel(decimal, 3);
}

/// Whether a byte is a decimal digit.
pub open spec fn is_digit(b: u8) -> bool {
    48 <= b <= 57
}

/// The number that a text of digits stands for.
pub open spec fn read_decimal(text: Seq<u8>) -> int
    decreases text.len(),
{
    if text.len() == 0 {
        0
    } else {
        read_decimal(text.drop_last()) * 10 + (text.last() - 48)
    }
}

/// Reading the digits of a number gives the number back.
pub proof fn law_decimal_reads_back(v: nat)
    ensures
        read_decimal(decimal(v)) == v,
    decreases v,
{
    if v < 10 {
        reveal_with_fuel(read_decimal, 2);
        assert(decimal(v).drop_last() =~= seq![]);
    } else {
        law_decimal_reads_back(v / 10);
        assert(decimal(v).drop_last() =~= decimal(v / 10));
    }
}

/// A number is written in digits only, and only zero starts with a zero.
pub proof fn law_decimal_is_plain(v: nat)
    ensures
        decimal(v).len() >= 1,
        forall|i: int| 0 <= i < decimal(v).len() ==> is_digit(#[trigger] decimal(v)[i]),
        decimal(v)[0] == 48 <==> v == 0,
    decreases v,
{
    if v >= 10 {
        law_decimal_is_plain(v / 10);
        assert forall|i: int| 0 <= i < decimal(v).len() implies is_digit(
            #[trigger] decimal(v)[i],
        ) by {
            if i < decimal(v).len() - 1 {
                assert(decimal(v)[i] == decimal(v / 10)[i]);
            }
        }
        assert(decimal(v)[0] == decimal(v / 10)[0]);
    }
}

/// A number of thousandths always has a point and three places behind it, and
/// both sides of the point read together give the number back.
pub proof fn law_thousandths_read_back(milli: nat)
    ensures
        ({
            let text = thousandths(milli);
            let point = text.len() - 4;
            &&& point >= 1
            &&& text[point] == 46
            &&& forall|i: int|
                0 <= i < text.len() && i != point ==> is_digit(#[trigger] text[i])
            &&& read_decimal(text.take(point)) * 1000 + read_decimal(text.skip(point + 1)) == milli
        }),
{
    let text = thousandths(milli);
    let whole = decimal(milli / 1000);
    let f: nat = milli % 1000;
    law_decimal_is_plain(milli / 1000);
    law_decimal_reads_back(milli / 1000);
    let point: int = text.len() - 4;
    assert(text.take(point) =~= whole);
    assert forall|i: int| 0 <= i < text.len() && i != point implies is_digit(
        #[trigger] text[i],
    ) by {
        if i < point {
            assert(text[i] == whole[i]);
        }
    }
    let places = text.skip(point + 1);
    assert(places =~= seq![(48 + f / 100) as u8, (48 + f % 100 / 10) as u8, (48 + f % 10) as u8]);
    assert(places.drop_last() =~= seq![(48 + f / 100) as u8, (48 + f % 100 / 10) as u8]);
    assert(places.drop_last().drop_last() =~= seq![(48 + f / 100) as u8]);
    assert(places.drop_last().drop_last().drop_last() =~= seq![]);
    reveal_with_fuel(read_decimal, 4);
}

/// Two numbers with the same digits are the same number.
pub proof fn law_decimal_tells_apart(a: nat, b: nat)
    requires
        decimal(a) == decimal(b),
    ensures
        a == b,
{
    law_decimal_reads_back(a);
    law_decimal_reads_back(b);
}

/// One more digit at the end makes ten times the number and the digit.
pub proof fn law_decimal_by_last_digit(v: nat, d: nat)
    requires
        d < 10,
    ensures
        decimal(d) == seq![(48 + d) as u8],
        v > 0 ==> decimal(10 * v + d) == decimal(v).push((48 + d) as u8),
{
}

/// A number of thousandths, part by part: what is before the point is written as any
/// whole number, and the three digits behind it are worth the rest.
pub proof fn law_thousandths_by_parts(milli: nat)
    ensures
        ({
            let text = thousandths(milli);
            let whole = decimal(milli / 1000);
            let n = whole.len() as int;
            &&& text.len() == n + 4
            &&& text.take(n) == whole
            &&& text[n] == 46
            &&& 100 * (text[n + 1] - 48) + 10 * (text[n + 2] - 48) + (text[n + 3] - 48) == milli
                % 1000
            &&& is_digit(text[n + 1]) && is_digit(text[n + 2]) && is_digit(text[n + 3])
        }),
{
    assert(thousandths(milli).take(decimal(milli / 1000).len() as int) =~= decimal(milli / 1000));
}

/// Writing changes the bytes from `at` on, as many as the text has, and no others.
pub proof fn law_written_byte_by_byte(buf: Seq<u8>, at: int, text: Seq<u8>, i: int)
    requires
        0 <= at,
        at + text.len() <= buf.len(),
        0 <= i < buf.len(),
    ensures
        written(buf, at, text).len() == buf.len(),
        at <= i < at + text.len() ==> written(buf, at, text)[i] == text[i - at],
        i < at || i >= at + text.len() ==> written(buf, at, text)[i] == buf[i],
{
}

} // verus!
