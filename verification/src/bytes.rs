//! Searching and numbering in byte strings.
use vstd::prelude::*;
use vstd::slice::slice_subrange;

verus! {

/// `\n`, which ends a record.
pub const NEWLINE: u8 = 0x0a;

/// `+`
pub const PLUS: u8 = 0x2b;

/// `.`, which parts the pieces of a file name.
pub const DOT: u8 = 0x2e;

/// `0`
pub const ZERO: u8 = 0x30;

/// `9`
pub const NINE: u8 = 0x39;

/// The place of the first `byte` in `text`, or the length of `text` where it
/// holds none.
pub open spec fn place(text: Seq<u8>, byte: u8) -> int
    decreases text.len(),
{
    if text.len() == 0 || text[0] == byte {
        0
    } else {
        1 + place(text.drop_first(), byte)
    }
}

/// `place` is where its description says.
pub proof fn lemma_place(text: Seq<u8>, byte: u8)
    ensures
        0 <= place(text, byte) <= text.len(),
        forall|i: int| 0 <= i < place(text, byte) ==> text[i] != byte,
        place(text, byte) < text.len() ==> text[place(text, byte)] == byte,
        text.contains(byte) <==> place(text, byte) < text.len(),
    decreases text.len(),
{
    if text.len() > 0 && text[0] != byte {
        let tail = text.drop_first();
        lemma_place(tail, byte);
        assert forall|i: int| 0 <= i < place(text, byte) implies text[i] != byte by {
            if i > 0 {
                assert(tail[i - 1] == text[i]);
            }
        }
    }
    if text.contains(byte) {
        let i = choose|i: int| 0 <= i < text.len() && text[i] == byte;
        assert(i >= place(text, byte));
    }
}

/// The first `byte` is where nothing before it is one.
pub proof fn lemma_place_unique(text: Seq<u8>, byte: u8, at: int)
    requires
        0 <= at <= text.len(),
        forall|i: int| 0 <= i < at ==> text[i] != byte,
        at < text.len() ==> text[at] == byte,
    ensures
        place(text, byte) == at,
{
    lemma_place(text, byte);
    let found = place(text, byte);
    if found < at {
        assert(text[found] != byte);
    } else if at < found {
        assert(text[at] != byte);
    }
}

/// Finds the first `byte` of `text`.
pub fn find(text: &[u8], byte: u8) -> (at: usize)
    ensures
        at == place(text@, byte),
        at <= text@.len(),
{
    let mut at: usize = 0;
    while at < text.len()
        invariant_except_break
            at <= text@.len(),
            forall|i: int| 0 <= i < at ==> text@[i] != byte,
        ensures
            at <= text@.len(),
            forall|i: int| 0 <= i < at ==> text@[i] != byte,
            at < text@.len() ==> text@[at as int] == byte,
        decreases text@.len() - at,
    {
        if text[at] == byte {
            break;
        }
        at = at + 1;
    }
    proof {
        lemma_place_unique(text@, byte, at as int);
    }
    at
}

/// Whether `text` begins with `prefix`.
pub fn starts_with(text: &[u8], prefix: &[u8]) -> (result: bool)
    ensures
        result == prefix@.is_prefix_of(text@),
{
    if text.len() < prefix.len() {
        return false;
    }
    let mut at: usize = 0;
    while at < prefix.len()
        invariant
            at <= prefix@.len() <= text@.len(),
            forall|i: int| 0 <= i < at ==> text@[i] == prefix@[i],
        decreases prefix@.len() - at,
    {
        if text[at] != prefix[at] {
            assert(text@.subrange(0, prefix@.len() as int)[at as int] != prefix@[at as int]);
            return false;
        }
        at = at + 1;
    }
    assert(prefix@ =~= text@.subrange(0, prefix@.len() as int));
    true
}

pub open spec fn is_digit(byte: u8) -> bool {
    ZERO <= byte <= NINE
}

pub open spec fn all_digits(text: Seq<u8>) -> bool {
    forall|i: int| 0 <= i < text.len() ==> is_digit(#[trigger] text[i])
}

/// The number that a string of digits is the decimal form of.
pub open spec fn number(digits: Seq<u8>) -> int
    decreases digits.len(),
{
    if digits.len() == 0 {
        0
    } else {
        number(digits.drop_last()) * 10 + (digits.last() - ZERO)
    }
}

/// The unsigned integer up to `most` that `text` is read as: digits, at least
/// one of them, with or without a plus sign in front.
pub open spec fn unsigned(text: Seq<u8>, most: int) -> Option<int> {
    let digits = if text.len() > 0 && text[0] == PLUS {
        text.drop_first()
    } else {
        text
    };
    if digits.len() > 0 && all_digits(digits) && number(digits) <= most {
        Some(number(digits))
    } else {
        None
    }
}

proof fn lemma_number_grows(digits: Seq<u8>, at: int)
    requires
        all_digits(digits),
        0 <= at <= digits.len(),
    ensures
        0 <= number(digits.take(at)) <= number(digits),
    decreases digits.len(),
{
    if digits.len() == 0 {
        assert(digits.take(at) =~= digits);
    } else if at == digits.len() {
        assert(digits.take(at) =~= digits);
        lemma_number_grows(digits.drop_last(), 0);
        assert(digits.drop_last().take(0) =~= Seq::<u8>::empty());
        assert(is_digit(digits[digits.len() - 1]));
    } else {
        lemma_number_grows(digits.drop_last(), at);
        assert(digits.drop_last().take(at) =~= digits.take(at));
        assert(is_digit(digits[digits.len() - 1]));
    }
}

/// What is read as an unsigned integer is one.
pub proof fn lemma_unsigned_range(text: Seq<u8>, most: int)
    ensures
        unsigned(text, most) matches Some(n) ==> 0 <= n <= most,
{
    let digits = if text.len() > 0 && text[0] == PLUS {
        text.drop_first()
    } else {
        text
    };
    if all_digits(digits) {
        lemma_number_grows(digits, digits.len() as int);
        assert(digits.take(digits.len() as int) =~= digits);
    }
}

/// Reads an unsigned integer of at most `most`.
pub fn read_unsigned(text: &[u8], most: u64) -> (result: Option<u64>)
    ensures
        result is Some <==> unsigned(text@, most as int) is Some,
        result matches Some(n) ==> unsigned(text@, most as int) == Some(n as int),
{
    let start: usize = if text.len() > 0 && text[0] == PLUS { 1 } else { 0 };
    let digits = slice_subrange(text, start, text.len());
    assert(start == 0 ==> digits@ =~= text@);
    assert(start == 1 ==> digits@ =~= text@.drop_first());
    if digits.len() == 0 {
        return None;
    }
    let mut n: u64 = 0;
    let mut at: usize = 0;
    assert(digits@.take(0) =~= Seq::<u8>::empty());
    while at < digits.len()
        invariant
            at <= digits@.len(),
            all_digits(digits@.take(at as int)),
            n == number(digits@.take(at as int)),
            n <= most,
            unsigned(text@, most as int) is Some ==> {
                &&& all_digits(digits@)
                &&& number(digits@) <= most
            },
        decreases digits@.len() - at,
    {
        let byte: u8 = digits[at];
        if byte < ZERO || byte > NINE {
            assert(!is_digit(digits@[at as int]));
            return None;
        }
        let digit: u64 = (byte - ZERO) as u64;
        proof {
            let longer = digits@.take(at + 1);
            assert(longer.drop_last() =~= digits@.take(at as int));
            assert forall|i: int| 0 <= i < longer.len() implies is_digit(#[trigger] longer[i]) by {
                if i < at {
                    assert(longer[i] == digits@.take(at as int)[i]);
                }
            }
            if all_digits(digits@) {
                lemma_number_grows(digits@, at + 1);
            }
        }
        if digit > most || n > (most - digit) / 10 {
            assert(n * 10 + digit > most);
            return None;
        }
        n = n * 10 + digit;
        at = at + 1;
    }
    assert(digits@.take(digits@.len() as int) =~= digits@);
    Some(n)
}

/// The decimal form of `n`.
pub open spec fn decimal(n: int) -> Seq<u8>
    decreases n,
{
    if n < 10 {
        seq![(ZERO + n) as u8]
    } else {
        decimal(n / 10).push((ZERO + n % 10) as u8)
    }
}

/// The decimal form of `n`, filled up with zeros in front to `width` digits.
pub open spec fn padded(n: int, width: int) -> Seq<u8> {
    let digits = decimal(n);
    if digits.len() < width {
        Seq::new((width - digits.len()) as nat, |i: int| ZERO) + digits
    } else {
        digits
    }
}

/// The decimal form of a number is read as that number.
pub proof fn lemma_decimal(n: int)
    requires
        0 <= n,
    ensures
        decimal(n).len() >= 1,
        all_digits(decimal(n)),
        number(decimal(n)) == n,
    decreases n,
{
    if n < 10 {
        let digits = decimal(n);
        assert(digits.drop_last() =~= Seq::<u8>::empty());
        assert(number(digits.drop_last()) == 0);
    } else {
        lemma_decimal(n / 10);
        assert(decimal(n).drop_last() =~= decimal(n / 10));
    }
}

proof fn lemma_zeros(count: int, digits: Seq<u8>)
    requires
        0 <= count,
        all_digits(digits),
    ensures
        all_digits(Seq::new(count as nat, |i: int| ZERO) + digits),
        number(Seq::new(count as nat, |i: int| ZERO) + digits) == number(digits),
    decreases count + digits.len(),
{
    let zeros = Seq::new(count as nat, |i: int| ZERO);
    let whole = zeros + digits;
    if digits.len() > 0 {
        lemma_zeros(count, digits.drop_last());
        assert(whole.drop_last() =~= zeros + digits.drop_last());
    } else if count > 0 {
        lemma_zeros(count - 1, digits);
        assert(whole.drop_last() =~= Seq::new((count - 1) as nat, |i: int| ZERO) + digits);
    }
}

/// Filling up with zeros does not change what a number is read as.
pub proof fn lemma_padded(n: int, width: int)
    requires
        0 <= n,
    ensures
        padded(n, width).len() >= 1,
        padded(n, width).len() >= width,
        all_digits(padded(n, width)),
        number(padded(n, width)) == n,
{
    lemma_decimal(n);
    let digits = decimal(n);
    if digits.len() < width {
        lemma_zeros(width - digits.len(), digits);
    }
}

/// A number that is written, filled up or not, is read back.
pub proof fn lemma_padded_is_read_back(n: int, width: int, most: int)
    requires
        0 <= n <= most,
    ensures
        unsigned(padded(n, width), most) == Some(n),
{
    lemma_padded(n, width);
    assert(is_digit(padded(n, width)[0]));
}

/// Writes `n` with at least `width` digits.
pub fn write_padded(n: u64, width: usize) -> (result: Vec<u8>)
    ensures
        result@ == padded(n as int, width as int),
{
    let mut digits: Vec<u8> = Vec::new();
    let mut rest: u64 = n;
    assert(decimal(n as int) =~= decimal(rest as int) + digits@);
    while rest >= 10
        invariant
            decimal(n as int) == decimal(rest as int) + digits@,
        decreases rest,
    {
        let ghost before = digits@;
        let digit: u8 = (rest % 10) as u8;
        digits.insert(0, ZERO + digit);
        rest = rest / 10;
        assert(decimal(n as int) =~= decimal(rest as int) + digits@);
    }
    digits.insert(0, ZERO + rest as u8);
    assert(digits@ =~= decimal(n as int));
    let ghost plain = digits@;
    while digits.len() < width
        invariant
            plain == decimal(n as int),
            digits@.len() <= width || digits@ == plain,
            digits@.len() >= plain.len(),
            digits@ == Seq::new((digits@.len() - plain.len()) as nat, |i: int| ZERO) + plain,
        decreases width - digits@.len(),
    {
        digits.insert(0, ZERO);
        assert(digits@ =~= Seq::new((digits@.len() - plain.len()) as nat, |i: int| ZERO) + plain);
    }
    assert(digits@ =~= padded(n as int, width as int));
    digits
}

} // verus!
