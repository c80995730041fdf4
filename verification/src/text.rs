//! Bytes of STEP text: classes of bytes, runs, whole numbers in decimal and
//! the search for a fixed word.

use vstd::prelude::*;

verus! {

/// Horizontal tab, the first of the white space bytes below the space.
pub const CH_TAB: u8 = 9;

/// Carriage return, the last of the white space bytes below the space.
pub const CH_RETURN: u8 = 13;

/// Space.
pub const CH_SPACE: u8 = 32;

/// `#`
pub const CH_HASH: u8 = 35;

/// `'`
pub const CH_QUOTE: u8 = 39;

/// `(`
pub const CH_OPEN: u8 = 40;

/// `)`
pub const CH_CLOSE: u8 = 41;

/// `+`
pub const CH_PLUS: u8 = 43;

/// `,`
pub const CH_COMMA: u8 = 44;

/// `-`
pub const CH_MINUS: u8 = 45;

/// `.`
pub const CH_DOT: u8 = 46;

/// `0`
pub const CH_ZERO: u8 = 48;

/// `9`
pub const CH_NINE: u8 = 57;

/// `;`
pub const CH_SEMICOLON: u8 = 59;

/// `=`
pub const CH_EQUALS: u8 = 61;

/// `A`
pub const CH_UPPER_A: u8 = 65;

/// `E`
pub const CH_UPPER_E: u8 = 69;

/// `Z`
pub const CH_UPPER_Z: u8 = 90;

/// `_`
pub const CH_UNDERSCORE: u8 = 95;

/// `e`
pub const CH_LOWER_E: u8 = 101;

/// A class of bytes.
#[derive(Clone, Copy, Debug, PartialEq, Eq, Structural)]
pub enum ByteClass {
    /// `0` to `9`.
    Digit,
    /// Space, tab, line feed, vertical tab, form feed, carriage return.
    Space,
    /// `A` to `Z` and the underscore.
    Kind,
    /// `A` to `Z`, the underscore and `0` to `9`.
    KindOrDigit,
    /// Every byte but the one named.
    Not(u8),
    /// The byte named and no other.
    Only(u8),
}

impl ByteClass {
    /// The byte `b` is of the class.
    pub open spec fn has(self, b: u8) -> bool {
        match self {
            ByteClass::Digit => CH_ZERO <= b <= CH_NINE,
            ByteClass::Space => b == CH_SPACE || (CH_TAB <= b <= CH_RETURN),
            ByteClass::Kind => (CH_UPPER_A <= b <= CH_UPPER_Z) || b == CH_UNDERSCORE,
            ByteClass::KindOrDigit => (CH_UPPER_A <= b <= CH_UPPER_Z) || b == CH_UNDERSCORE || (
            CH_ZERO <= b <= CH_NINE),
            ByteClass::Not(x) => b != x,
            ByteClass::Only(x) => b == x,
        }
    }

    /// Whether the byte `b` is of the class.
    pub fn holds(self, b: u8) -> (r: bool)
        ensures
            r == self.has(b),
    {
        match self {
            ByteClass::Digit => CH_ZERO <= b && b <= CH_NINE,
            ByteClass::Space => b == CH_SPACE || (CH_TAB <= b && b <= CH_RETURN),
            ByteClass::Kind => (CH_UPPER_A <= b && b <= CH_UPPER_Z) || b == CH_UNDERSCORE,
            ByteClass::KindOrDigit => (CH_UPPER_A <= b && b <= CH_UPPER_Z) || b == CH_UNDERSCORE
                || (CH_ZERO <= b && b <= CH_NINE),
            ByteClass::Not(x) => b != x,
            ByteClass::Only(x) => b == x,
        }
    }
}

/// End of the longest run of bytes of the class that starts at `from`.
pub open spec fn run_end(s: Seq<u8>, from: int, class: ByteClass) -> int
    decreases s.len() - from,
{
    if 0 <= from < s.len() && class.has(s[from]) {
        run_end(s, from + 1, class)
    } else {
        from
    }
}

/// Start of the longest run of bytes of the class that ends at `to` and does
/// not reach below `floor`.
pub open spec fn run_start(s: Seq<u8>, floor: int, to: int, class: ByteClass) -> int
    decreases to - floor,
{
    if floor < to <= s.len() && 0 <= floor && class.has(s[to - 1]) {
        run_start(s, floor, to - 1, class)
    } else {
        to
    }
}

/// A run ends within the text, holds bytes of its class alone, and stops
/// before a byte that is not of the class.
pub proof fn lemma_run_end(s: Seq<u8>, from: int, class: ByteClass)
    requires
        0 <= from <= s.len(),
    ensures
        from <= run_end(s, from, class) <= s.len(),
        forall|k: int| from <= k < run_end(s, from, class) ==> class.has(#[trigger] s[k]),
        run_end(s, from, class) < s.len() ==> !class.has(s[run_end(s, from, class)]),
    decreases s.len() - from,
{
    if from < s.len() && class.has(s[from]) {
        lemma_run_end(s, from + 1, class);
    }
}

/// A run that holds bytes of its class alone and stops at the end of the text
/// or before a byte that is not of the class ends there.
pub proof fn lemma_run_ends_at(s: Seq<u8>, from: int, to: int, class: ByteClass)
    requires
        0 <= from <= to <= s.len(),
        forall|k: int| from <= k < to ==> class.has(#[trigger] s[k]),
        to < s.len() ==> !class.has(s[to]),
    ensures
        run_end(s, from, class) == to,
    decreases to - from,
{
    if from < to {
        lemma_run_ends_at(s, from + 1, to, class);
    }
}

/// End of the run of bytes of the class that starts at `from`.
pub fn skip_run(s: &[u8], from: usize, class: ByteClass) -> (end: usize)
    requires
        from <= s@.len(),
    ensures
        end == run_end(s@, from as int, class),
        from <= end <= s@.len(),
{
    let mut i: usize = from;
    while i < s.len() && class.holds(s[i])
        invariant
            from <= i <= s@.len(),
            run_end(s@, from as int, class) == run_end(s@, i as int, class),
        decreases s@.len() - i,
    {
        i = i + 1;
    }
    i
}

/// Start of the run of bytes of the class that ends at `to`, not below `floor`.
pub fn skip_run_back(s: &[u8], floor: usize, to: usize, class: ByteClass) -> (start: usize)
    requires
        floor <= to <= s@.len(),
    ensures
        start == run_start(s@, floor as int, to as int, class),
        floor <= start <= to,
{
    let mut i: usize = to;
    while i > floor && class.holds(s[i - 1])
        invariant
            floor <= i <= to,
            to <= s@.len(),
            run_start(s@, floor as int, to as int, class) == run_start(
                s@,
                floor as int,
                i as int,
                class,
            ),
        decreases i - floor,
    {
        i = i - 1;
    }
    i
}

/// The number that decimal digits write.
pub open spec fn digits_value(digits: Seq<u8>) -> nat
    decreases digits.len(),
{
    if digits.len() == 0 {
        0
    } else {
        digits_value(digits.drop_last()) * 10 + (digits.last() - CH_ZERO) as nat
    }
}

/// Every byte is a digit.
pub open spec fn all_digits(digits: Seq<u8>) -> bool {
    forall|k: int| 0 <= k < digits.len() ==> ByteClass::Digit.has(#[trigger] digits[k])
}

/// The first digits of a number write no more than all of them.
pub proof fn lemma_digits_value_grows(digits: Seq<u8>, k: int)
    requires
        all_digits(digits),
        0 <= k <= digits.len(),
    ensures
        digits_value(digits.take(k)) <= digits_value(digits),
    decreases digits.len() - k,
{
    if k < digits.len() {
        lemma_digits_value_grows(digits, k + 1);
        assert(digits.take(k + 1).drop_last() =~= digits.take(k));
        assert(digits.take(k + 1).last() == digits[k]);
    } else {
        assert(digits.take(k) =~= digits);
    }
}

/// The number that the digits `s[from..to]` write, where it is at most `limit`.
pub fn parse_digits(s: &[u8], from: usize, to: usize, limit: u64) -> (r: Option<u64>)
    requires
        from <= to <= s@.len(),
        all_digits(s@.subrange(from as int, to as int)),
    ensures
        r == (if digits_value(s@.subrange(from as int, to as int)) <= limit {
            Some(digits_value(s@.subrange(from as int, to as int)) as u64)
        } else {
            None
        }),
{
    let ghost digits = s@.subrange(from as int, to as int);
    let mut acc: u128 = 0;
    let mut i: usize = from;
    while i < to
        invariant
            from <= i <= to <= s@.len(),
            digits == s@.subrange(from as int, to as int),
            all_digits(digits),
            acc == digits_value(digits.take(i - from)),
            acc <= limit,
        decreases to - i,
    {
        proof {
            assert(digits.take(i + 1 - from).drop_last() =~= digits.take(i - from));
            assert(digits.take(i + 1 - from).last() == digits[i - from]);
            assert(digits[i - from] == s@[i as int]);
            assert(ByteClass::Digit.has(digits[i - from]));
            lemma_digits_value_grows(digits, i + 1 - from);
        }
        let next: u128 = acc * 10 + ((s[i] - CH_ZERO) as u128);
        if next > limit as u128 {
            return None;
        }
        acc = next;
        i = i + 1;
    }
    proof {
        assert(digits.take(to - from) =~= digits);
    }
    Some(acc as u64)
}

/// Decimal digits of a number.
pub open spec fn decimal(n: nat) -> Seq<u8>
    decreases n,
{
    if n < 10 {
        seq![(CH_ZERO + n) as u8]
    } else {
        decimal(n / 10).push((CH_ZERO + n % 10) as u8)
    }
}

/// Appends the decimal digits of `n`.
pub fn push_decimal(out: &mut Vec<u8>, n: u128)
    ensures
        final(out)@ == old(out)@ + decimal(n as nat),
    decreases n,
{
    if n < 10 {
        out.push(CH_ZERO + (n as u8));
        assert(out@ =~= old(out)@ + decimal(n as nat));
    } else {
        push_decimal(out, n / 10);
        out.push(CH_ZERO + ((n % 10) as u8));
        assert(out@ =~= old(out)@ + decimal(n as nat));
    }
}

/// Decimal digits of a whole number, with a minus sign before a negative one.
pub open spec fn signed_decimal(n: int) -> Seq<u8> {
    if n < 0 {
        seq![CH_MINUS] + decimal((-n) as nat)
    } else {
        decimal(n as nat)
    }
}

/// Appends the decimal digits of `n`, with a minus sign before a negative one.
pub fn push_signed_decimal(out: &mut Vec<u8>, n: i64)
    ensures
        final(out)@ == old(out)@ + signed_decimal(n as int),
{
    if n < 0 {
        out.push(CH_MINUS);
        let magnitude: u128 = ((-(n + 1)) as u128) + 1;
        push_decimal(out, magnitude);
        assert(out@ =~= old(out)@ + signed_decimal(n as int));
    } else {
        push_decimal(out, n as u128);
    }
}

/// Appends the bytes of `word`.
pub fn push_bytes(out: &mut Vec<u8>, word: &[u8])
    ensures
        final(out)@ == old(out)@ + word@,
{
    let mut i: usize = 0;
    while i < word.len()
        invariant
            i <= word@.len(),
            out@ == old(out)@ + word@.take(i as int),
        decreases word@.len() - i,
    {
        out.push(word[i]);
        assert(out@ =~= old(out)@ + word@.take(i + 1));
        i = i + 1;
    }
    assert(word@.take(word@.len() as int) =~= word@);
}

/// The bytes `s[from..to]` in a vector of their own.
pub fn copy_range(s: &[u8], from: usize, to: usize) -> (out: Vec<u8>)
    requires
        from <= to <= s@.len(),
    ensures
        out@ == s@.subrange(from as int, to as int),
{
    let mut out: Vec<u8> = Vec::new();
    let mut i: usize = from;
    while i < to
        invariant
            from <= i <= to <= s@.len(),
            out@ == s@.subrange(from as int, i as int),
        decreases to - i,
    {
        out.push(s[i]);
        assert(out@ =~= s@.subrange(from as int, i + 1));
        i = i + 1;
    }
    out
}

/// Whether two byte strings are the same.
pub fn same_bytes(a: &[u8], b: &[u8]) -> (r: bool)
    ensures
        r == (a@ == b@),
{
    if a.len() != b.len() {
        return false;
    }
    let mut i: usize = 0;
    while i < a.len()
        invariant
            i <= a@.len(),
            a@.len() == b@.len(),
            forall|k: int| 0 <= k < i ==> a@[k] == b@[k],
        decreases a@.len() - i,
    {
        if a[i] != b[i] {
            return false;
        }
        i = i + 1;
    }
    assert(a@ =~= b@);
    true
}

/// `word` stands in `s` at `i`.
pub open spec fn occurs_at(s: Seq<u8>, word: Seq<u8>, i: int) -> bool {
    0 <= i && i + word.len() <= s.len() && s.subrange(i, i + word.len()) == word
}

/// `word` stands somewhere in `s`.
pub open spec fn contains_word(s: Seq<u8>, word: Seq<u8>) -> bool {
    exists|i: int| occurs_at(s, word, i)
}

/// Number of times `word` stands in `s` from `from` on, counted from left to
/// right without overlap.
pub open spec fn count_word(s: Seq<u8>, word: Seq<u8>, from: int) -> nat
    decreases s.len() - from,
{
    if word.len() == 0 || from < 0 || from + word.len() > s.len() {
        0
    } else if occurs_at(s, word, from) {
        1 + count_word(s, word, from + word.len())
    } else {
        count_word(s, word, from + 1)
    }
}

/// Whether `word` stands in `s` at `i`.
pub fn word_at(s: &[u8], word: &[u8], i: usize) -> (r: bool)
    ensures
        r == occurs_at(s@, word@, i as int),
{
    if word.len() > s.len() || i > s.len() - word.len() {
        return false;
    }
    let mut k: usize = 0;
    while k < word.len()
        invariant
            k <= word@.len(),
            i + word@.len() <= s@.len() <= usize::MAX,
            forall|j: int| 0 <= j < k ==> s@[i + j] == word@[j],
        decreases word@.len() - k,
    {
        if s[i + k] != word[k] {
            assert(s@.subrange(i as int, i + word@.len())[k as int] != word@[k as int]);
            return false;
        }
        k = k + 1;
    }
    assert(s@.subrange(i as int, i + word@.len()) =~= word@);
    true
}

/// Whether `word` stands somewhere in `s`.
pub fn has_word(s: &[u8], word: &[u8]) -> (r: bool)
    ensures
        r == contains_word(s@, word@),
{
    if word.len() > s.len() {
        assert forall|i: int| !occurs_at(s@, word@, i) by {}
        return false;
    }
    if word.len() == 0 {
        assert(s@.subrange(0, 0) =~= word@);
        assert(occurs_at(s@, word@, 0));
        return true;
    }
    let last: usize = s.len() - word.len();
    let mut i: usize = 0;
    while i <= last
        invariant
            i <= last + 1,
            last == s@.len() - word@.len(),
            last < usize::MAX,
            forall|j: int| 0 <= j < i ==> !occurs_at(s@, word@, j),
        decreases last + 1 - i,
    {
        if word_at(s, word, i) {
            return true;
        }
        i = i + 1;
    }
    assert forall|j: int| !occurs_at(s@, word@, j) by {}
    false
}

/// Number of times `word` stands in `s`, without overlap.
pub fn count_words(s: &[u8], word: &[u8]) -> (n: usize)
    requires
        word@.len() > 0,
    ensures
        n == count_word(s@, word@, 0),
        n * word@.len() <= s@.len() <= usize::MAX,
{
    let mut n: usize = 0;
    let mut i: usize = 0;
    if word.len() > s.len() {
        return 0;
    }
    let last: usize = s.len() - word.len();
    while i <= last
        invariant
            word@.len() > 0,
            last == s@.len() - word@.len(),
            i <= s@.len() <= usize::MAX,
            n + count_word(s@, word@, i as int) == count_word(s@, word@, 0),
            n * word@.len() <= i,
        decreases s@.len() - i,
    {
        assert(n <= n * word@.len()) by (nonlinear_arith)
            requires
                word@.len() >= 1,
                n >= 0,
        ;
        if word_at(s, word, i) {
            assert((n + 1) * word@.len() == n * word@.len() + word@.len()) by (nonlinear_arith);
            n = n + 1;
            i = i + word.len();
        } else {
            i = i + 1;
        }
    }
    n
}

} // verus!
