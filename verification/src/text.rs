//! Text as sequences of characters: decimal and hexadecimal numbers, trimming,
//! splitting and joining.

use vstd::prelude::*;
use vstd::string::*;

verus! {

/// The digits of every base up to sixteen.
pub open spec fn digit_char(d: int) -> char {
    seq!['0', '1', '2', '3', '4', '5', '6', '7', '8', '9', 'A', 'B', 'C', 'D', 'E', 'F'][d]
}

/// `n` in decimal, without leading zeros.
pub open spec fn decimal(n: nat) -> Seq<char>
    decreases n,
{
    if n < 10 {
        seq![digit_char(n as int)]
    } else {
        decimal(n / 10).push(digit_char((n % 10) as int))
    }
}

/// `c` is a decimal digit.
pub open spec fn is_digit(c: char) -> bool {
    '0' <= c <= '9'
}

/// Every character of `s` is a decimal digit.
pub open spec fn all_digits(s: Seq<char>) -> bool {
    forall|i: int| 0 <= i < s.len() ==> is_digit(#[trigger] s[i])
}

/// The number that a sequence of decimal digits stands for.
pub open spec fn digits_value(s: Seq<char>) -> nat
    decreases s.len(),
{
    if s.len() == 0 {
        0
    } else {
        (digits_value(s.drop_last()) * 10 + (s.last() as u32 - '0' as u32)) as nat
    }
}

/// An unsigned number: an optional plus sign, then one or more decimal digits.
pub open spec fn unsigned(s: Seq<char>) -> Option<nat> {
    let digits = if s.len() > 0 && s[0] == '+' {
        s.skip(1)
    } else {
        s
    };
    if digits.len() > 0 && all_digits(digits) {
        Some(digits_value(digits))
    } else {
        None
    }
}

/// `c` has the Unicode property `White_Space`.
pub open spec fn is_white_space(c: char) -> bool {
    let n = c as u32;
    ||| 0x9 <= n <= 0xD
    ||| n == 0x20
    ||| n == 0x85
    ||| n == 0xA0
    ||| n == 0x1680
    ||| 0x2000 <= n <= 0x200A
    ||| n == 0x2028
    ||| n == 0x2029
    ||| n == 0x202F
    ||| n == 0x205F
    ||| n == 0x3000
}

/// `s` without the white space at its start.
pub open spec fn trim_start(s: Seq<char>) -> Seq<char>
    decreases s.len(),
{
    if s.len() > 0 && is_white_space(s[0]) {
        trim_start(s.skip(1))
    } else {
        s
    }
}

/// `s` without the white space at its end.
pub open spec fn trim_end(s: Seq<char>) -> Seq<char>
    decreases s.len(),
{
    if s.len() > 0 && is_white_space(s.last()) {
        trim_end(s.drop_last())
    } else {
        s
    }
}

/// `s` without the white space at either end.
pub open spec fn trim(s: Seq<char>) -> Seq<char> {
    trim_end(trim_start(s))
}

/// Where `c` first occurs in `s`, or the length of `s`.
pub open spec fn index_of(s: Seq<char>, c: char) -> nat
    decreases s.len(),
{
    if s.len() == 0 || s[0] == c {
        0
    } else {
        1 + index_of(s.skip(1), c)
    }
}

/// The pieces of `s` between the separators; one piece more than there are separators.
pub open spec fn split(s: Seq<char>, separator: char) -> Seq<Seq<char>>
    decreases s.len(),
{
    let i = index_of(s, separator) as int;
    if i >= s.len() {
        seq![s]
    } else {
        seq![s.take(i)] + split(s.skip(i + 1), separator)
    }
}

/// The parts with a separator between each two.
pub open spec fn join(parts: Seq<Seq<char>>, separator: char) -> Seq<char>
    decreases parts.len(),
{
    if parts.len() == 0 {
        Seq::empty()
    } else if parts.len() == 1 {
        parts[0]
    } else {
        parts[0] + seq![separator] + join(parts.skip(1), separator)
    }
}

/// `index_of` is the first occurrence.
pub proof fn lemma_index_of(s: Seq<char>, c: char)
    ensures
        index_of(s, c) <= s.len(),
        index_of(s, c) < s.len() ==> s[index_of(s, c) as int] == c,
        forall|i: int| 0 <= i < index_of(s, c) ==> s[i] != c,
    decreases s.len(),
{
    if s.len() > 0 && s[0] != c {
        let rest = s.skip(1);
        lemma_index_of(rest, c);
        assert(forall|i: int| 0 < i < s.len() ==> s[i] == rest[i - 1]);
    }
}

/// A position before which `c` does not occur is where it occurs first.
pub proof fn lemma_index_of_at(s: Seq<char>, c: char, at: int)
    requires
        0 <= at <= s.len(),
        forall|i: int| 0 <= i < at ==> s[i] != c,
        at < s.len() ==> s[at] == c,
    ensures
        index_of(s, c) == at,
{
    lemma_index_of(s, c);
    let first = index_of(s, c) as int;
    if first < at {
        assert(s[first] != c);
    }
    if at < first {
        assert(s[at] != c);
    }
}

/// Appending a part appends a separator and the part.
pub proof fn lemma_join_push(parts: Seq<Seq<char>>, part: Seq<char>, separator: char)
    ensures
        join(parts.push(part), separator) == if parts.len() == 0 {
            part
        } else {
            join(parts, separator) + seq![separator] + part
        },
    decreases parts.len(),
{
    let longer = parts.push(part);
    if parts.len() > 0 {
        assert(longer.skip(1) =~= parts.skip(1).push(part));
        lemma_join_push(parts.skip(1), part, separator);
        if parts.len() == 1 {
            assert(join(longer, separator) =~= parts[0] + seq![separator] + part);
        } else {
            assert(join(longer, separator) =~= join(parts, separator) + seq![separator] + part);
        }
    }
}

/// Splitting what was joined gives the parts back, when none of them holds the separator.
pub proof fn lemma_split_join(parts: Seq<Seq<char>>, separator: char)
    requires
        parts.len() > 0,
        forall|i: int| 0 <= i < parts.len() ==> !(#[trigger] parts[i]).contains(separator),
    ensures
        split(join(parts, separator), separator) == parts,
    decreases parts.len(),
{
    let whole = join(parts, separator);
    let first = parts[0];
    assert(!parts[0].contains(separator));
    assert(forall|i: int| 0 <= i < first.len() ==> first.contains(#[trigger] first[i]));
    assert forall|i: int| 0 <= i < first.len() implies whole[i] != separator by {
        assert(whole[i] == first[i]);
    }
    if parts.len() == 1 {
        lemma_index_of_at(whole, separator, first.len() as int);
        assert(split(whole, separator) =~= parts);
    } else {
        let rest = parts.skip(1);
        assert forall|i: int| 0 <= i < rest.len() implies !(#[trigger] rest[i]).contains(
            separator,
        ) by {
            assert(rest[i] == parts[i + 1]);
        }
        lemma_split_join(rest, separator);
        lemma_index_of_at(whole, separator, first.len() as int);
        assert(whole.take(first.len() as int) =~= first);
        assert(whole.skip(first.len() as int + 1) =~= join(rest, separator));
        assert(split(whole, separator) =~= parts);
    }
}

/// The pieces of two texts with a separator between them are the pieces of both.
pub proof fn lemma_split_joined(a: Seq<char>, b: Seq<char>, separator: char)
    ensures
        split(a + seq![separator] + b, separator) == split(a, separator) + split(b, separator),
    decreases a.len(),
{
    let whole = a + seq![separator] + b;
    let i = index_of(a, separator) as int;
    lemma_index_of(a, separator);
    assert forall|k: int| 0 <= k < i implies whole[k] != separator by {
        assert(whole[k] == a[k]);
    }
    lemma_index_of_at(whole, separator, i);
    if i >= a.len() {
        assert(whole.take(i) =~= a);
        assert(whole.skip(i + 1) =~= b);
    } else {
        let rest = a.skip(i + 1);
        lemma_split_joined(rest, b, separator);
        assert(whole.take(i) =~= a.take(i));
        assert(whole.skip(i + 1) =~= rest + seq![separator] + b);
        assert(split(whole, separator) =~= split(a, separator) + split(b, separator));
    }
}

/// Text that starts and ends with something visible is its own trim.
pub proof fn lemma_trim_visible(s: Seq<char>)
    requires
        s.len() > 0,
        !is_white_space(s[0]),
        !is_white_space(s.last()),
    ensures
        trim(s) == s,
{
}

/// Decimal notation is made of digits and reads back as the number.
pub proof fn lemma_decimal(n: nat)
    ensures
        decimal(n).len() > 0,
        all_digits(decimal(n)),
        digits_value(decimal(n)) == n,
        unsigned(decimal(n)) == Some(n),
    decreases n,
{
    if n < 10 {
        let s = decimal(n);
        assert(s.drop_last() =~= Seq::empty());
        assert(digits_value(s.drop_last()) == 0);
    } else {
        lemma_decimal(n / 10);
        assert(decimal(n).drop_last() =~= decimal(n / 10));
    }
}

/// Digits are not white space, and neither are the marks of a pin range.
pub proof fn lemma_visible(c: char)
    requires
        is_digit(c) || c == '-' || c == ',' || c == '+',
    ensures
        !is_white_space(c),
{
}

/// Whether `c` is white space.
pub fn white_space(c: char) -> (r: bool)
    ensures
        r == is_white_space(c),
{
    let n: u32 = c as u32;
    (0x9 <= n && n <= 0xD) || n == 0x20 || n == 0x85 || n == 0xA0 || n == 0x1680 || (0x2000 <= n
        && n <= 0x200A) || n == 0x2028 || n == 0x2029 || n == 0x202F || n == 0x205F || n == 0x3000
}

/// The characters of `text`.
pub fn chars_of(text: &str) -> (r: Vec<char>)
    ensures
        r@ == text@,
{
    let mut out: Vec<char> = Vec::new();
    let n: usize = text.unicode_len();
    let mut i: usize = 0;
    while i < n
        invariant
            i <= n,
            n == text@.len(),
            out@ == text@.take(i as int),
        decreases n - i,
    {
        let c: char = text.get_char(i);
        out.push(c);
        assert(text@.take(i + 1) =~= text@.take(i as int).push(c));
        i = i + 1;
    }
    assert(text@.take(n as int) =~= text@);
    out
}

/// The bounds of what is left of `chars[from..to]` after trimming.
pub fn trim_bounds(chars: &Vec<char>, from: usize, to: usize) -> (r: (usize, usize))
    requires
        from <= to <= chars@.len(),
    ensures
        from <= r.0 <= r.1 <= to,
        chars@.subrange(r.0 as int, r.1 as int) == trim(chars@.subrange(from as int, to as int)),
{
    let ghost whole = chars@.subrange(from as int, to as int);
    let mut lo: usize = from;
    while lo < to && white_space(chars[lo])
        invariant
            from <= lo <= to <= chars@.len(),
            trim_start(chars@.subrange(lo as int, to as int)) == trim_start(whole),
        decreases to - lo,
    {
        let ghost now = chars@.subrange(lo as int, to as int);
        assert(now[0] == chars@[lo as int]);
        assert(now.skip(1) =~= chars@.subrange(lo + 1, to as int));
        lo = lo + 1;
    }
    let ghost started = chars@.subrange(lo as int, to as int);
    assert(lo < to ==> started[0] == chars@[lo as int]);
    assert(started == trim_start(whole));
    let mut hi: usize = to;
    while lo < hi && white_space(chars[hi - 1])
        invariant
            from <= lo <= hi <= to <= chars@.len(),
            trim_end(chars@.subrange(lo as int, hi as int)) == trim_end(started),
        decreases hi - lo,
    {
        let ghost now = chars@.subrange(lo as int, hi as int);
        assert(now.last() == chars@[hi - 1]);
        assert(now.drop_last() =~= chars@.subrange(lo as int, hi - 1));
        hi = hi - 1;
    }
    assert(lo < hi ==> chars@.subrange(lo as int, hi as int).last() == chars@[hi - 1]);
    (lo, hi)
}

/// The first position of `c` in `chars[from..to]`, or `to`.
pub fn find_char(chars: &Vec<char>, from: usize, to: usize, c: char) -> (r: usize)
    requires
        from <= to <= chars@.len(),
    ensures
        from <= r <= to,
        r - from == index_of(chars@.subrange(from as int, to as int), c),
        r < to ==> chars@[r as int] == c,
{
    let ghost whole = chars@.subrange(from as int, to as int);
    let mut i: usize = from;
    while i < to && chars[i] != c
        invariant
            from <= i <= to <= chars@.len(),
            whole == chars@.subrange(from as int, to as int),
            forall|k: int| 0 <= k < i - from ==> whole[k] != c,
        decreases to - i,
    {
        assert(whole[i - from] == chars@[i as int]);
        i = i + 1;
    }
    proof {
        if i < to {
            assert(whole[i - from] == chars@[i as int]);
        }
        lemma_index_of_at(whole, c, i - from);
    }
    i
}

/// One digit as text.
fn digit_str(d: u8) -> (r: &'static str)
    requires
        d < 16,
    ensures
        r@ == seq![digit_char(d as int)],
{
    proof {
        reveal_strlit("0");
        reveal_strlit("1");
        reveal_strlit("2");
        reveal_strlit("3");
        reveal_strlit("4");
        reveal_strlit("5");
        reveal_strlit("6");
        reveal_strlit("7");
        reveal_strlit("8");
        reveal_strlit("9");
        reveal_strlit("A");
        reveal_strlit("B");
        reveal_strlit("C");
        reveal_strlit("D");
        reveal_strlit("E");
        reveal_strlit("F");
    }
    let r: &'static str = match d {
        0 => "0",
        1 => "1",
        2 => "2",
        3 => "3",
        4 => "4",
        5 => "5",
        6 => "6",
        7 => "7",
        8 => "8",
        9 => "9",
        10 => "A",
        11 => "B",
        12 => "C",
        13 => "D",
        14 => "E",
        _ => "F",
    };
    assert(r@ =~= seq![digit_char(d as int)]);
    r
}

/// Append `n` in decimal.
pub fn push_decimal(out: &mut String, n: u64)
    ensures
        final(out)@ == old(out)@ + decimal(n as nat),
    decreases n,
{
    let ghost before = out@;
    if n >= 10 {
        push_decimal(out, n / 10);
    }
    out.append(digit_str((n % 10) as u8));
    assert(out@ =~= before + decimal(n as nat));
}

/// A byte as two hexadecimal digits.
pub open spec fn hex_byte(b: u8) -> Seq<char> {
    seq![digit_char(b as int / 16), digit_char(b as int % 16)]
}

/// Append a byte as two hexadecimal digits.
pub fn push_hex_byte(out: &mut String, b: u8)
    ensures
        final(out)@ == old(out)@ + hex_byte(b),
{
    let ghost before = out@;
    out.append(digit_str(b / 16));
    out.append(digit_str(b % 16));
    assert(out@ =~= before + hex_byte(b));
}

/// `s` is nothing but white space.
pub open spec fn blank(s: Seq<char>) -> bool {
    forall|i: int| 0 <= i < s.len() ==> is_white_space(#[trigger] s[i])
}

proof fn lemma_trim_start_blank(before: Seq<char>, rest: Seq<char>)
    requires
        blank(before),
    ensures
        trim_start(before + rest) == trim_start(rest),
    decreases before.len(),
{
    if before.len() == 0 {
        assert(before + rest =~= rest);
    } else {
        assert(is_white_space(before[0]));
        lemma_trim_start_blank(before.skip(1), rest);
        assert((before + rest).skip(1) =~= before.skip(1) + rest);
    }
}

proof fn lemma_trim_end_blank(rest: Seq<char>, after: Seq<char>)
    requires
        blank(after),
    ensures
        trim_end(rest + after) == trim_end(rest),
    decreases after.len(),
{
    if after.len() == 0 {
        assert(rest + after =~= rest);
    } else {
        assert(is_white_space(after[after.len() - 1]));
        lemma_trim_end_blank(rest, after.drop_last());
        assert((rest + after).drop_last() =~= rest + after.drop_last());
    }
}

/// Trimming takes the white space off both ends, all of it and nothing else.
pub proof fn trimming_takes_the_blanks(before: Seq<char>, core: Seq<char>, after: Seq<char>)
    requires
        blank(before),
        blank(after),
        core.len() > 0 ==> !is_white_space(core[0]) && !is_white_space(core.last()),
    ensures
        trim(before + core + after) == core,
{
    assert(before + core + after =~= before + (core + after));
    lemma_trim_start_blank(before, core + after);
    if core.len() > 0 {
        assert((core + after)[0] == core[0]);
        lemma_trim_end_blank(core, after);
    } else {
        assert(core + after =~= after + Seq::<char>::empty());
        lemma_trim_start_blank(after, Seq::empty());
        assert(core =~= Seq::<char>::empty());
    }
}

/// The pieces of a text hold no separator, and make up the text when they are put together
/// with separators between them.
pub proof fn pieces_make_up_the_text(s: Seq<char>, separator: char)
    ensures
        join(split(s, separator), separator) == s,
        split(s, separator).len() > 0,
        forall|i: int|
            0 <= i < split(s, separator).len() ==> !(#[trigger] split(s, separator)[i]).contains(
                separator,
            ),
    decreases s.len(),
{
    lemma_index_of(s, separator);
    let at = index_of(s, separator) as int;
    let pieces = split(s, separator);
    if at < s.len() {
        let rest = s.skip(at + 1);
        pieces_make_up_the_text(rest, separator);
        assert(pieces.skip(1) =~= split(rest, separator));
        assert(s =~= s.take(at) + seq![separator] + rest);
        assert forall|i: int| 0 <= i < pieces.len() implies !(#[trigger] pieces[i]).contains(
            separator,
        ) by {
            if i > 0 {
                assert(pieces[i] == split(rest, separator)[i - 1]);
            }
        }
    }
}

/// Decimal notation has no leading zeros.
pub proof fn decimals_are_short(n: nat)
    ensures
        decimal(n)[0] == '0' <==> n == 0,
        n == 0 ==> decimal(n).len() == 1,
    decreases n,
{
    if n >= 10 {
        decimals_are_short(n / 10);
        lemma_decimal(n / 10);
        assert(decimal(n)[0] == decimal(n / 10)[0]);
    }
}

/// Two hexadecimal digits, in upper case, spell the byte.
pub proof fn hex_bytes_spell_the_byte(b: u8)
    ensures
        ({
            let digits = hex_byte(b);
            let high = digits[0] as int;
            let low = digits[1] as int;
            &&& digits.len() == 2
            &&& 48 <= high <= 57 || 65 <= high <= 70
            &&& 48 <= low <= 57 || 65 <= low <= 70
            &&& b == 16 * (if high <= 57 {
                high - 48
            } else {
                high - 55
            }) + if low <= 57 {
                low - 48
            } else {
                low - 55
            }
        }),
{
}

/// One zero in front adds nothing to a number.
proof fn lemma_zero_in_front(digits: Seq<char>)
    requires
        all_digits(digits),
    ensures
        digits_value(seq!['0'] + digits) == digits_value(digits),
        all_digits(seq!['0'] + digits),
    decreases digits.len(),
{
    let longer = seq!['0'] + digits;
    assert forall|i: int| 0 <= i < longer.len() implies is_digit(#[trigger] longer[i]) by {
        if i > 0 {
            assert(is_digit(digits[i - 1]));
        }
    }
    if digits.len() == 0 {
        assert(longer.drop_last() =~= Seq::empty());
        assert(digits_value(longer.drop_last()) == 0);
    } else {
        let shorter = digits.drop_last();
        assert forall|i: int| 0 <= i < shorter.len() implies is_digit(#[trigger] shorter[i]) by {
            assert(is_digit(digits[i]));
        }
        lemma_zero_in_front(shorter);
        assert(longer.drop_last() =~= seq!['0'] + shorter);
    }
}

/// A number may have a plus sign in front, once, and leading zeros; neither changes it.
/// Without a digit there is no number.
pub proof fn signs_and_zeros_do_not_matter(digits: Seq<char>)
    requires
        digits.len() > 0,
        all_digits(digits),
    ensures
        unsigned(digits) == Some(digits_value(digits)),
        unsigned(seq!['+'] + digits) == unsigned(digits),
        unsigned(seq!['0'] + digits) == unsigned(digits),
        unsigned(seq!['+', '+'] + digits) is None,
        unsigned(seq!['-'] + digits) is None,
        unsigned(seq!['+']) is None,
        unsigned(Seq::empty()) is None,
{
    assert(is_digit(digits[0]));
    lemma_zero_in_front(digits);
    assert((seq!['+'] + digits).skip(1) =~= digits);
    let twice = seq!['+', '+'] + digits;
    assert(twice.skip(1)[0] == '+');
    let minus = seq!['-'] + digits;
    assert(minus[0] == '-');
}

/// Nothing is left of a text exactly if it is blank.
pub proof fn only_blanks_trim_to_nothing(s: Seq<char>)
    ensures
        trim(s).len() == 0 <==> blank(s),
{
    if blank(s) {
        trimming_takes_the_blanks(s, Seq::empty(), Seq::empty());
        assert(s + Seq::<char>::empty() + Seq::<char>::empty() =~= s);
    } else {
        lemma_trim_keeps_visible(s);
    }
}

/// Something is left of a text that is not blank.
proof fn lemma_trim_keeps_visible(s: Seq<char>)
    requires
        !blank(s),
    ensures
        trim(s).len() > 0,
{
    lemma_trim_start_keeps_visible(s);
    lemma_trim_end_keeps_visible(trim_start(s));
}

proof fn lemma_trim_start_keeps_visible(s: Seq<char>)
    requires
        !blank(s),
    ensures
        !blank(trim_start(s)),
    decreases s.len(),
{
    let i = choose|i: int| 0 <= i < s.len() && !is_white_space(#[trigger] s[i]);
    if is_white_space(s[0]) {
        assert(s.skip(1)[i - 1] == s[i]);
        lemma_trim_start_keeps_visible(s.skip(1));
    }
}

proof fn lemma_trim_end_keeps_visible(s: Seq<char>)
    requires
        !blank(s),
    ensures
        trim_end(s).len() > 0,
    decreases s.len(),
{
    let i = choose|i: int| 0 <= i < s.len() && !is_white_space(#[trigger] s[i]);
    if is_white_space(s.last()) {
        assert(s.drop_last()[i] == s[i]);
        lemma_trim_end_keeps_visible(s.drop_last());
    }
}

} // verus!
