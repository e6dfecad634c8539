//! Text as the control plane reads and writes it: splitting into pieces, lines
//! and fields, numbers, and decimal output.

use vstd::prelude::*;

verus! {

/// `alloc::string::String::push` appends one character at the end.
pub assume_specification[ String::push ](s: &mut String, c: char)
    ensures
        final(s)@ == old(s)@.push(c),
;

/// What a text is split at.
#[derive(Debug, Clone, Copy, PartialEq, Eq, Structural)]
pub enum Separator {
    /// One given character.
    Char { c: char },
    /// Any Unicode white space.
    Whitespace,
}

/// The characters with the Unicode property `White_Space`.
pub open spec fn is_white(c: char) -> bool {
    let v = c as u32;
    ||| 0x09 <= v <= 0x0D
    ||| v == 0x20
    ||| v == 0x85
    ||| v == 0xA0
    ||| v == 0x1680
    ||| 0x2000 <= v <= 0x200A
    ||| v == 0x2028
    ||| v == 0x2029
    ||| v == 0x202F
    ||| v == 0x205F
    ||| v == 0x3000
}

pub open spec fn separates(sep: Separator, c: char) -> bool {
    match sep {
        Separator::Char { c: at } => c == at,
        Separator::Whitespace => is_white(c),
    }
}

/// The pieces of `s` between separators; always one more than there are
/// separators.
pub open spec fn pieces(s: Seq<char>, sep: Separator) -> Seq<Seq<char>>
    decreases s.len(),
{
    if s.len() == 0 {
        seq![Seq::empty()]
    } else {
        let before = pieces(s.drop_last(), sep);
        if separates(sep, s.last()) {
            before.push(Seq::empty())
        } else {
            before.drop_last().push(before.last().push(s.last()))
        }
    }
}

/// The nonempty pieces of `s` between runs of white space.
pub open spec fn fields(s: Seq<char>) -> Seq<Seq<char>> {
    pieces(s, Separator::Whitespace).filter(|p: Seq<char>| p.len() > 0)
}

/// A line without the carriage return before its line feed.
pub open spec fn without_cr(line: Seq<char>) -> Seq<char> {
    if line.len() > 0 && line.last() == '\r' {
        line.drop_last()
    } else {
        line
    }
}

/// The lines of `s`. A line ends in a line feed or in carriage return and line
/// feed; the end of the last line is optional.
pub open spec fn lines(s: Seq<char>) -> Seq<Seq<char>> {
    let p = pieces(s, Separator::Char { c: '\n' });
    let ended = p.drop_last().map_values(|line: Seq<char>| without_cr(line));
    if p.last().len() == 0 {
        ended
    } else {
        ended.push(p.last())
    }
}

/// The contents of a list of character vectors.
pub open spec fn contents(v: Seq<Vec<char>>) -> Seq<Seq<char>> {
    v.map_values(|p: Vec<char>| p@)
}

proof fn lemma_pieces_nonempty(s: Seq<char>, sep: Separator)
    ensures
        pieces(s, sep).len() >= 1,
    decreases s.len(),
{
    if s.len() > 0 {
        lemma_pieces_nonempty(s.drop_last(), sep);
    }
}

/// The characters of a string.
pub fn chars_of(s: &str) -> (out: Vec<char>)
    ensures
        out@ == s@,
{
    let mut out: Vec<char> = Vec::new();
    for c in iter: s.chars()
        invariant
            iter.seq() == s@,
            out@ == s@.take(iter.index()),
    {
        out.push(c);
        assert(s@.take(iter.index() + 1) =~= s@.take(iter.index()).push(c));
    }
    assert(s@.take(s@.len() as int) =~= s@);
    out
}

/// The string made of the given characters.
pub fn string_of(chars: &[char]) -> (out: String)
    ensures
        out@ == chars@,
{
    let mut out = String::new();
    let mut i: usize = 0;
    while i < chars.len()
        invariant
            i <= chars@.len(),
            out@ == chars@.take(i as int),
        decreases chars@.len() - i,
    {
        out.push(chars[i]);
        i = i + 1;
        assert(chars@.take(i as int) =~= chars@.take(i - 1).push(chars@[i - 1]));
    }
    assert(chars@.take(chars@.len() as int) =~= chars@);
    out
}

/// Whether the characters are exactly those of `text`.
pub fn same_text(chars: &[char], text: &str) -> (same: bool)
    ensures
        same == (chars@ == text@),
{
    let other = chars_of(text);
    if chars.len() != other.len() {
        return false;
    }
    let mut i: usize = 0;
    while i < chars.len()
        invariant
            i <= chars@.len(),
            chars@.len() == other@.len(),
            other@ == text@,
            forall|k: int| 0 <= k < i ==> chars@[k] == other@[k],
        decreases chars@.len() - i,
    {
        if chars[i] != other[i] {
            assert(chars@[i as int] != text@[i as int]);
            return false;
        }
        i = i + 1;
    }
    assert(chars@ =~= other@);
    true
}

fn is_separator(sep: &Separator, c: char) -> (b: bool)
    ensures
        b == separates(*sep, c),
{
    match sep {
        Separator::Char { c: at } => c == *at,
        Separator::Whitespace => {
            let v: u32 = c as u32;
            (0x09 <= v && v <= 0x0D) || v == 0x20 || v == 0x85 || v == 0xA0 || v == 0x1680 || (
            0x2000 <= v && v <= 0x200A) || v == 0x2028 || v == 0x2029 || v == 0x202F || v == 0x205F
                || v == 0x3000
        },
    }
}

/// Split `s` at every separator.
pub fn split(s: &[char], sep: Separator) -> (out: Vec<Vec<char>>)
    ensures
        contents(out@) == pieces(s@, sep),
        out@.len() >= 1,
{
    let mut done: Vec<Vec<char>> = Vec::new();
    let mut current: Vec<char> = Vec::new();
    let mut i: usize = 0;
    assert(contents(done@).push(current@) =~= pieces(s@.take(0), sep));
    while i < s.len()
        invariant
            i <= s@.len(),
            contents(done@).push(current@) == pieces(s@.take(i as int), sep),
        decreases s@.len() - i,
    {
        let c: char = s[i];
        let ghost before = pieces(s@.take(i as int), sep);
        let ghost done_before = contents(done@);
        let ghost current_before = current@;
        assert(s@.take(i + 1).drop_last() =~= s@.take(i as int));
        assert(before.drop_last() =~= done_before);
        assert(before.last() == current_before);
        if is_separator(&sep, c) {
            done.push(current);
            current = Vec::new();
            assert(contents(done@) =~= done_before.push(current_before));
            assert(current@ =~= Seq::empty());
        } else {
            current.push(c);
        }
        i = i + 1;
        assert(contents(done@).push(current@) =~= pieces(s@.take(i as int), sep));
    }
    assert(s@.take(s@.len() as int) =~= s@);
    let ghost ended = contents(done@);
    let ghost last = current@;
    done.push(current);
    assert(contents(done@) =~= ended.push(last));
    done
}

/// The fields of `s`.
pub fn split_fields(s: &[char]) -> (out: Vec<Vec<char>>)
    ensures
        contents(out@) == fields(s@),
{
    let all = split(s, Separator::Whitespace);
    let ghost whole = contents(all@);
    let mut out: Vec<Vec<char>> = Vec::new();
    let mut i: usize = 0;
    assert(contents(out@) =~= whole.take(0).filter(|p: Seq<char>| p.len() > 0)) by {
        reveal(Seq::filter);
    }
    while i < all.len()
        invariant
            i <= all@.len(),
            whole == contents(all@),
            contents(out@) == whole.take(i as int).filter(|p: Seq<char>| p.len() > 0),
        decreases all@.len() - i,
    {
        let ghost kept = contents(out@);
        if all[i].len() > 0 {
            let field = all[i].clone();
            assert(field@ =~= all@[i as int]@);
            out.push(field);
            assert(contents(out@) =~= kept.push(whole[i as int]));
        }
        proof {
            reveal(Seq::filter);
            assert(whole.take(i + 1).drop_last() =~= whole.take(i as int));
        }
        i = i + 1;
    }
    assert(whole.take(whole.len() as int) =~= whole);
    out
}

/// The lines of `s`.
pub fn split_lines(s: &[char]) -> (out: Vec<Vec<char>>)
    ensures
        contents(out@) == lines(s@),
{
    let mut all = split(s, Separator::Char { c: '\n' });
    let ghost whole = contents(all@);
    let last = all.pop().unwrap();
    assert(contents(all@) =~= whole.drop_last());
    assert(last@ == whole.last());
    let mut out: Vec<Vec<char>> = Vec::new();
    let mut i: usize = 0;
    while i < all.len()
        invariant
            i <= all@.len(),
            out@.len() == i,
            forall|k: int| 0 <= k < i ==> #[trigger] out@[k]@ == without_cr(all@[k]@),
        decreases all@.len() - i,
    {
        let mut line = all[i].clone();
        assert(line@ =~= all@[i as int]@);
        if line.len() > 0 && line[line.len() - 1] == '\r' {
            line.pop();
        }
        out.push(line);
        i = i + 1;
    }
    let ghost ended = whole.drop_last().map_values(|line: Seq<char>| without_cr(line));
    assert(contents(out@) =~= ended);
    if last.len() > 0 {
        out.push(last);
        assert(contents(out@) =~= ended.push(whole.last()));
    }
    out
}

/// The value of a digit in the given radix; letters count on from ten.
pub open spec fn digit(c: char, radix: int) -> Option<int> {
    let v = if '0' <= c <= '9' {
        c as int - '0' as int
    } else if 'a' <= c <= 'z' {
        c as int - 'a' as int + 10
    } else if 'A' <= c <= 'Z' {
        c as int - 'A' as int + 10
    } else {
        radix
    };
    if v < radix {
        Some(v)
    } else {
        None
    }
}

/// The value of a string of digits; `None` if anything else occurs in it.
pub open spec fn number(s: Seq<char>, radix: int) -> Option<int>
    decreases s.len(),
{
    if s.len() == 0 {
        Some(0)
    } else {
        match (number(s.drop_last(), radix), digit(s.last(), radix)) {
            (Some(n), Some(d)) => Some(n * radix + d),
            _ => None,
        }
    }
}

/// The digits of a number that may carry a plus sign.
pub open spec fn without_plus(s: Seq<char>) -> Seq<char> {
    if s.len() > 0 && s[0] == '+' {
        s.skip(1)
    } else {
        s
    }
}

/// The number `s` stands for: an optional plus sign, then at least one digit and
/// nothing else, with a value of at most `max`.
pub open spec fn unsigned(s: Seq<char>, radix: int, max: int) -> Option<int> {
    let digits = without_plus(s);
    if digits.len() == 0 {
        None
    } else {
        match number(digits, radix) {
            Some(n) => if n <= max {
                Some(n)
            } else {
                None
            },
            None => None,
        }
    }
}

fn digit_value(c: char, radix: u32) -> (d: Option<u32>)
    requires
        2 <= radix <= 36,
    ensures
        match d {
            Some(v) => digit(c, radix as int) == Some(v as int) && v < radix,
            None => digit(c, radix as int) is None,
        },
{
    let v: u32 = if '0' <= c && c <= '9' {
        c as u32 - '0' as u32
    } else if 'a' <= c && c <= 'z' {
        c as u32 - 'a' as u32 + 10
    } else if 'A' <= c && c <= 'Z' {
        c as u32 - 'A' as u32 + 10
    } else {
        radix
    };
    if v < radix {
        Some(v)
    } else {
        None
    }
}

/// More digits never make a number smaller, nor repair a bad prefix.
proof fn lemma_number_prefix(s: Seq<char>, radix: int, i: int)
    requires
        radix >= 2,
        0 <= i <= s.len(),
    ensures
        number(s.take(i), radix) is None ==> number(s, radix) is None,
        number(s, radix) is Some ==> number(s.take(i), radix)->0 <= number(s, radix)->0,
        number(s, radix) is Some ==> 0 <= number(s.take(i), radix)->0,
    decreases s.len(),
{
    if s.len() == 0 {
        assert(s.take(i) =~= s);
    } else if i == s.len() {
        assert(s.take(i) =~= s);
        lemma_number_prefix(s.drop_last(), radix, 0);
        assert(s.drop_last().take(0) =~= Seq::<char>::empty());
        if number(s, radix) is Some {
            let n = number(s.drop_last(), radix)->0;
            assert(n * radix >= 0) by (nonlinear_arith)
                requires
                    n >= 0,
                    radix >= 2,
            ;
        }
    } else {
        lemma_number_prefix(s.drop_last(), radix, i);
        assert(s.drop_last().take(i) =~= s.take(i));
        lemma_number_prefix(s.drop_last(), radix, 0);
        assert(s.drop_last().take(0) =~= Seq::<char>::empty());
        if number(s, radix) is Some {
            let n = number(s.drop_last(), radix)->0;
            assert(n * radix >= n) by (nonlinear_arith)
                requires
                    n >= 0,
                    radix >= 2,
            ;
        }
    }
}

/// Parse a number with an optional plus sign.
pub fn parse_unsigned(s: &[char], radix: u32, max: u32) -> (n: Option<u32>)
    requires
        2 <= radix <= 36,
        max <= 65535,
    ensures
        match n {
            Some(v) => unsigned(s@, radix as int, max as int) == Some(v as int) && v <= max,
            None => unsigned(s@, radix as int, max as int) is None,
        },
{
    let start: usize = if s.len() > 0 && s[0] == '+' {
        1
    } else {
        0
    };
    let ghost digits = without_plus(s@);
    assert(digits =~= s@.skip(start as int));
    if s.len() == start {
        return None;
    }
    let mut value: u32 = 0;
    let mut i: usize = start;
    while i < s.len()
        invariant
            2 <= radix <= 36,
            max <= 65535,
            start <= i <= s@.len(),
            start < s@.len(),
            digits == s@.skip(start as int),
            digits == without_plus(s@),
            number(digits.take(i - start), radix as int) == Some(value as int),
            value <= max,
        decreases s@.len() - i,
    {
        let ghost k = i - start;
        assert(digits.take(k + 1).drop_last() =~= digits.take(k));
        assert(digits.take(k + 1).last() == s@[i as int]);
        assert(value * radix <= 65535 * 36) by (nonlinear_arith)
            requires
                value <= 65535,
                radix <= 36,
        ;
        proof {
            lemma_number_prefix(digits, radix as int, k + 1);
        }
        match digit_value(s[i], radix) {
            None => return None,
            Some(d) => {
                value = value * radix + d;
                if value > max {
                    return None;
                }
            },
        }
        i = i + 1;
    }
    assert(digits.take(digits.len() as int) =~= digits);
    Some(value)
}

/// The decimal digit of value `d`.
pub open spec fn digit_char(d: nat) -> char {
    (('0' as u32) + d) as char
}

/// `n` written in decimal, without leading zeros.
pub open spec fn decimal(n: nat) -> Seq<char>
    decreases n,
{
    if n < 10 {
        seq![digit_char(n)]
    } else {
        decimal(n / 10).push(digit_char(n % 10))
    }
}

/// Append `n` in decimal.
pub fn push_decimal(out: &mut String, n: u64)
    ensures
        final(out)@ == old(out)@ + decimal(n as nat),
    decreases n,
{
    if n >= 10 {
        push_decimal(out, n / 10);
    }
    let d: u8 = (n % 10) as u8;
    let ghost before = out@;
    out.push((48 + d) as char);
    proof {
        assert(((48 + d) as u8) as char == digit_char((n % 10) as nat));
        assert(out@ =~= old(out)@ + decimal(n as nat));
    }
}

/// Decimal output holds digits only, is never empty, and starts with `0` only for
/// zero itself.
pub proof fn lemma_decimal(n: nat)
    ensures
        decimal(n).len() >= 1,
        forall|i: int| 0 <= i < decimal(n).len() ==> '0' <= #[trigger] decimal(n)[i] <= '9',
        n > 0 ==> decimal(n)[0] != '0',
        n < 10 ==> decimal(n).len() == 1,
        n < 100 ==> decimal(n).len() <= 2,
        n < 1000 ==> decimal(n).len() <= 3,
    decreases n,
{
    if n >= 10 {
        lemma_decimal(n / 10);
        assert(decimal(n)[0] == decimal(n / 10)[0]);
    }
}

/// Law: reading decimal output back gives the number that was written.
pub proof fn decimal_reads_back(n: nat)
    ensures
        number(decimal(n), 10) == Some(n as int),
    decreases n,
{
    let s = decimal(n);
    if n < 10 {
        assert(s.drop_last() =~= Seq::<char>::empty());
        assert(number(s.drop_last(), 10) == Some(0int));
        assert(digit(s.last(), 10) == Some(n as int));
    } else {
        decimal_reads_back(n / 10);
        assert(s.drop_last() =~= decimal(n / 10));
        assert(digit(s.last(), 10) == Some((n % 10) as int));
    }
}

/// Appending text without separators extends the last piece.
pub proof fn lemma_pieces_extend(s: Seq<char>, t: Seq<char>, sep: Separator)
    requires
        forall|i: int| 0 <= i < t.len() ==> !separates(sep, #[trigger] t[i]),
    ensures
        pieces(s + t, sep) == pieces(s, sep).drop_last().push(pieces(s, sep).last() + t),
    decreases t.len(),
{
    let p = pieces(s, sep);
    lemma_pieces_nonempty(s, sep);
    if t.len() == 0 {
        assert(s + t =~= s);
        assert(p.last() + t =~= p.last());
        assert(p.drop_last().push(p.last()) =~= p);
    } else {
        let u = t.drop_last();
        lemma_pieces_extend(s, u, sep);
        assert((s + t).drop_last() =~= s + u);
        assert(!separates(sep, t[t.len() - 1]));
        assert((p.last() + u).push(t.last()) =~= p.last() + t);
        assert(pieces(s + t, sep) =~= p.drop_last().push(p.last() + t));
    }
}

/// Appending a separator opens a new, empty piece.
pub proof fn lemma_pieces_separate(s: Seq<char>, c: char, sep: Separator)
    requires
        separates(sep, c),
    ensures
        pieces(s.push(c), sep) == pieces(s, sep).push(Seq::empty()),
{
    assert(s.push(c).drop_last() =~= s);
}

/// Law: the 25 characters that count as white space.
pub proof fn white_space_characters(c: char)
    ensures
        is_white(c) <==> seq![
            0x09u32,
            0x0A,
            0x0B,
            0x0C,
            0x0D,
            0x20,
            0x85,
            0xA0,
            0x1680,
            0x2000,
            0x2001,
            0x2002,
            0x2003,
            0x2004,
            0x2005,
            0x2006,
            0x2007,
            0x2008,
            0x2009,
            0x200A,
            0x2028,
            0x2029,
            0x202F,
            0x205F,
            0x3000,
        ].contains(c as u32),
{
    let all = seq![
        0x09u32,
        0x0A,
        0x0B,
        0x0C,
        0x0D,
        0x20,
        0x85,
        0xA0,
        0x1680,
        0x2000,
        0x2001,
        0x2002,
        0x2003,
        0x2004,
        0x2005,
        0x2006,
        0x2007,
        0x2008,
        0x2009,
        0x200A,
        0x2028,
        0x2029,
        0x202F,
        0x205F,
        0x3000,
    ];
    let v = c as u32;
    assert(all[0] == 0x09 && all[1] == 0x0A && all[2] == 0x0B && all[3] == 0x0C && all[4] == 0x0D
        && all[5] == 0x20 && all[6] == 0x85 && all[7] == 0xA0 && all[8] == 0x1680);
    assert(all[9] == 0x2000 && all[10] == 0x2001 && all[11] == 0x2002 && all[12] == 0x2003
        && all[13] == 0x2004 && all[14] == 0x2005 && all[15] == 0x2006 && all[16] == 0x2007
        && all[17] == 0x2008 && all[18] == 0x2009 && all[19] == 0x200A);
    assert(all[20] == 0x2028 && all[21] == 0x2029 && all[22] == 0x202F && all[23] == 0x205F
        && all[24] == 0x3000);
    if is_white(c) {
        let i: int = if v <= 0x0D {
            v - 0x09
        } else if v == 0x20 {
            5
        } else if v == 0x85 {
            6
        } else if v == 0xA0 {
            7
        } else if v == 0x1680 {
            8
        } else if v <= 0x200A {
            9 + (v - 0x2000)
        } else if v == 0x2028 {
            20
        } else if v == 0x2029 {
            21
        } else if v == 0x202F {
            22
        } else if v == 0x205F {
            23
        } else {
            24
        };
        assert(all[i] == v);
    }
}

/// Law: splitting at a character. A text without it is its only piece, and a text, the
/// character and a text without it split into the pieces of the first and the second.
pub proof fn splitting_at_a_character(s: Seq<char>, t: Seq<char>, c: char)
    requires
        forall|i: int| 0 <= i < t.len() ==> #[trigger] t[i] != c,
    ensures
        pieces(t, Separator::Char { c }) == seq![t],
        pieces(s.push(c) + t, Separator::Char { c }) == pieces(s, Separator::Char { c }).push(t),
{
    let sep = Separator::Char { c };
    let none = Seq::<char>::empty();
    lemma_pieces_extend(none, t, sep);
    assert(none + t =~= t);
    assert(pieces(none, sep) =~= seq![none]);
    assert(pieces(t, sep) =~= seq![t]);
    lemma_pieces_separate(s, c, sep);
    lemma_pieces_extend(s.push(c), t, sep);
    assert(none + t =~= t);
    assert(pieces(s.push(c), sep).drop_last() =~= pieces(s, sep));
    assert(pieces(s.push(c), sep).last() =~= none);
}

/// The texts one after the other, with `c` between them.
pub open spec fn joined(parts: Seq<Seq<char>>, c: char) -> Seq<char>
    decreases parts.len(),
{
    if parts.len() == 0 {
        Seq::empty()
    } else if parts.len() == 1 {
        parts[0]
    } else {
        joined(parts.drop_last(), c).push(c) + parts.last()
    }
}

/// Law: joining the pieces gives the text back, and splitting joined texts that do not
/// hold the separator gives these texts back.
pub proof fn pieces_join_back(s: Seq<char>, parts: Seq<Seq<char>>, c: char)
    requires
        parts.len() > 0,
        forall|k: int, i: int|
            0 <= k < parts.len() && 0 <= i < parts[k].len() ==> #[trigger] parts[k][i] != c,
    ensures
        joined(pieces(s, Separator::Char { c }), c) == s,
        pieces(joined(parts, c), Separator::Char { c }) == parts,
{
    lemma_join_pieces(s, c);
    lemma_split_joined(parts, c);
}

proof fn lemma_join_pieces(s: Seq<char>, c: char)
    ensures
        joined(pieces(s, Separator::Char { c }), c) == s,
    decreases s.len(),
{
    let sep = Separator::Char { c };
    let p = pieces(s, sep);
    if s.len() == 0 {
        assert(p =~= seq![Seq::<char>::empty()]);
    } else {
        let before = pieces(s.drop_last(), sep);
        lemma_join_pieces(s.drop_last(), c);
        lemma_pieces_nonempty(s.drop_last(), sep);
        if s.last() == c {
            assert(p.drop_last() =~= before);
            assert(joined(p, c) =~= s);
        } else {
            let start = before.drop_last();
            assert(p.drop_last() =~= start);
            assert(p.last() =~= before.last().push(s.last()));
            if before.len() > 1 {
                assert(joined(before, c) == joined(start, c).push(c) + before.last());
                assert(joined(p, c) == joined(start, c).push(c) + p.last());
            }
            assert(joined(p, c) =~= s.drop_last().push(s.last()));
            assert(s.drop_last().push(s.last()) =~= s);
        }
    }
}

proof fn lemma_split_joined(parts: Seq<Seq<char>>, c: char)
    requires
        parts.len() > 0,
        forall|k: int, i: int|
            0 <= k < parts.len() && 0 <= i < parts[k].len() ==> #[trigger] parts[k][i] != c,
    ensures
        pieces(joined(parts, c), Separator::Char { c }) == parts,
    decreases parts.len(),
{
    let last = parts[parts.len() - 1];
    assert forall|i: int| 0 <= i < last.len() implies #[trigger] last[i] != c by {
        assert(parts[parts.len() - 1][i] != c);
    }
    if parts.len() == 1 {
        splitting_at_a_character(Seq::empty(), last, c);
        assert(parts =~= seq![last]);
    } else {
        let rest = parts.drop_last();
        assert forall|k: int, i: int|
            0 <= k < rest.len() && 0 <= i < rest[k].len() implies #[trigger] rest[k][i] != c by {
            assert(parts[k][i] != c);
        }
        lemma_split_joined(rest, c);
        splitting_at_a_character(joined(rest, c), last, c);
        assert(parts =~= rest.push(last));
    }
}

/// Law: the fields of a text are the words between white space. An empty text has none,
/// white space at the end changes nothing, and a word after white space or at the very
/// start is one more field.
pub proof fn fields_are_words(s: Seq<char>, word: Seq<char>, white: char)
    requires
        word.len() > 0,
        forall|i: int| 0 <= i < word.len() ==> !is_white(#[trigger] word[i]),
        is_white(white),
    ensures
        fields(Seq::empty()) == Seq::<Seq<char>>::empty(),
        fields(s.push(white)) == fields(s),
        s.len() == 0 || is_white(s.last()) ==> fields(s + word) == fields(s).push(word),
{
    reveal(Seq::filter);
    let sep = Separator::Whitespace;
    let none = Seq::<char>::empty();
    let keep = |p: Seq<char>| p.len() > 0;
    let p = pieces(s, sep);
    assert(pieces(none, sep) =~= seq![none]);
    assert(Seq::<Seq<char>>::empty().filter(keep) =~= Seq::empty());
    assert(pieces(none, sep).drop_last() =~= Seq::empty());
    assert(pieces(none, sep).last().len() == 0);
    assert(pieces(none, sep).filter(keep) =~= Seq::empty());
    lemma_pieces_separate(s, white, sep);
    assert(p.push(none).drop_last() =~= p);
    assert(p.push(none).filter(keep) =~= p.filter(keep));
    if s.len() == 0 || is_white(s.last()) {
        lemma_pieces_nonempty(s, sep);
        lemma_pieces_extend(s, word, sep);
        assert(p.last() =~= none);
        assert(none + word =~= word);
        assert(p.drop_last().push(none) =~= p);
        let q = p.drop_last().push(word);
        assert(q.drop_last() =~= p.drop_last());
        assert(p.filter(keep) =~= p.drop_last().filter(keep));
        assert(q.filter(keep) =~= p.drop_last().filter(keep).push(word));
    }
}

/// Law: the lines of a text. Behind the end of a line, text up to a line feed is one more
/// line, without a carriage return right before the line feed; so is text at the end that
/// has no line feed, as it stands.
pub proof fn lines_end_at_line_feeds(s: Seq<char>, line: Seq<char>)
    requires
        s.len() == 0 || s.last() == '\n',
        forall|i: int| 0 <= i < line.len() ==> #[trigger] line[i] != '\n',
    ensures
        lines(Seq::empty()) == Seq::<Seq<char>>::empty(),
        line.len() > 0 && line.last() == '\r' ==> lines(s + line.push('\n')) == lines(s).push(
            line.drop_last(),
        ),
        line.len() == 0 || line.last() != '\r' ==> lines(s + line.push('\n')) == lines(s).push(
            line,
        ),
        line.len() > 0 ==> lines(s + line) == lines(s).push(line),
{
    let sep = Separator::Char { c: '\n' };
    let none = Seq::<char>::empty();
    let cut = |line: Seq<char>| without_cr(line);
    let p = pieces(s, sep);
    lemma_pieces_nonempty(s, sep);
    assert(pieces(none, sep) =~= seq![none]);
    assert(lines(none) =~= Seq::empty());
    assert(p.last() =~= none);
    assert(lines(s) == p.drop_last().map_values(cut));
    lemma_pieces_extend(s, line, sep);
    assert(none + line =~= line);
    let q = p.drop_last().push(line);
    assert(pieces(s + line, sep) =~= q);
    assert(q.drop_last() =~= p.drop_last());
    if line.len() > 0 {
        assert(lines(s + line) =~= lines(s).push(line));
    }
    lemma_pieces_separate(s + line, '\n', sep);
    assert((s + line).push('\n') =~= s + line.push('\n'));
    assert(q.push(none).drop_last() =~= q);
    assert(lines(s + line.push('\n')) =~= lines(s).push(without_cr(line)));
}

/// Law: the digits and their values. Up to nine they are the decimal digits, from ten on
/// the letters, small or capital.
pub proof fn digits_have_their_values(c: char, radix: int, d: int)
    requires
        2 <= radix <= 36,
    ensures
        digit(c, radix) == Some(d) <==> 0 <= d < radix && {
            ||| d < 10 && c as int == 48 + d
            ||| d >= 10 && c as int == 97 + (d - 10)
            ||| d >= 10 && c as int == 65 + (d - 10)
        },
{
}

/// Law: a digit behind a number multiplies it by the radix and adds its own value;
/// nothing else can stand in a number.
pub proof fn numbers_are_positional(s: Seq<char>, c: char, radix: int)
    ensures
        number(Seq::empty(), radix) == Some(0int),
        number(s, radix) is Some && digit(c, radix) is Some ==> number(s.push(c), radix) == Some(
            number(s, radix)->0 * radix + digit(c, radix)->0,
        ),
        number(s, radix) is None || digit(c, radix) is None ==> number(s.push(c), radix) is None,
{
    assert(s.push(c).drop_last() =~= s);
}

/// Law: a number in a text is one or more digits, with or without one plus sign before
/// them, and must not be larger than allowed.
pub proof fn numbers_may_carry_a_plus_sign(s: Seq<char>, radix: int, max: int)
    requires
        2 <= radix <= 36,
        s.len() > 0,
    ensures
        unsigned(Seq::empty(), radix, max) is None,
        unsigned(seq!['+'], radix, max) is None,
        unsigned(seq!['+'] + s, radix, max) == (if number(s, radix) is Some && number(s, radix)->0
            <= max {
            number(s, radix)
        } else {
            None
        }),
        s[0] != '+' ==> unsigned(s, radix, max) == unsigned(seq!['+'] + s, radix, max),
{
    assert((seq!['+'] + s).skip(1) =~= s);
    assert(seq!['+'].skip(1) =~= Seq::<char>::empty());
}

/// A number that does not start with zero is not zero.
proof fn lemma_number_positive(s: Seq<char>)
    requires
        s.len() > 0,
        s[0] != '0',
        number(s, 10) is Some,
    ensures
        number(s, 10)->0 >= 1,
    decreases s.len(),
{
    if s.len() > 1 {
        assert(s.drop_last()[0] == s[0]);
        lemma_number_positive(s.drop_last());
    } else {
        assert(s.drop_last() =~= Seq::<char>::empty());
        assert(number(s.drop_last(), 10) == Some(0int));
        assert(s.last() == s[0]);
        digits_have_their_values(s.last(), 10, digit(s.last(), 10)->0);
    }
}

/// Law: a number has one decimal text only. Digits that read as `n` and do not start with
/// a needless zero are the text that is written for `n`.
pub proof fn decimals_are_unique(s: Seq<char>, n: nat)
    requires
        s.len() > 0,
        s.len() > 1 ==> s[0] != '0',
        number(s, 10) == Some(n as int),
    ensures
        s == decimal(n),
    decreases s.len(),
{
    let t = s.drop_last();
    let c = s.last();
    let d = digit(c, 10)->0;
    digits_have_their_values(c, 10, d);
    assert(c == digit_char(d as nat));
    if s.len() == 1 {
        assert(t =~= Seq::<char>::empty());
        assert(number(t, 10) == Some(0int));
        assert(s =~= seq![c]);
    } else {
        assert(t[0] == s[0]);
        lemma_number_positive(t);
        let m = number(t, 10)->0;
        assert(n == m * 10 + d);
        assert(n / 10 == m && n % 10 == d);
        decimals_are_unique(t, m as nat);
        assert(s =~= t.push(c));
    }
}

} // verus!
