//! Character-level helpers: the sequence functions that the renderers'
//! contracts are written in, and verified routines that compute them on
//! `String` and `&str`.

use vstd::prelude::*;
use vstd::string::*;
use vstd::utf8::{encode_scalar, encode_utf8};

verus! {

/// `String::push` of the standard library: appends one character to the end
/// of the string and leaves what was there untouched.
pub assume_specification[ String::push ](s: &mut String, ch: char)
    ensures
        final(s)@ == old(s)@.push(ch),
;

/// `n` copies of `c`.
pub open spec fn repeated(c: char, n: nat) -> Seq<char> {
    Seq::new(n, |i: int| c)
}

/// Length of a text in bytes of its UTF-8 encoding, which is what
/// `str::len` measures.
pub open spec fn byte_len(s: Seq<char>) -> nat {
    encode_utf8(s).len()
}

/// `s` followed by as many spaces as it takes to reach `width` characters;
/// `s` itself where it is already that long.
pub open spec fn padded(s: Seq<char>, width: nat) -> Seq<char> {
    s + repeated(' ', if width > s.len() { (width - s.len()) as nat } else { 0 })
}

/// The character for a decimal digit.
pub open spec fn digit(d: nat) -> char {
    if d == 0 {
        '0'
    } else if d == 1 {
        '1'
    } else if d == 2 {
        '2'
    } else if d == 3 {
        '3'
    } else if d == 4 {
        '4'
    } else if d == 5 {
        '5'
    } else if d == 6 {
        '6'
    } else if d == 7 {
        '7'
    } else if d == 8 {
        '8'
    } else {
        '9'
    }
}

/// Decimal notation of `n`, without leading zeros.
pub open spec fn decimal(n: nat) -> Seq<char>
    decreases n,
{
    if n < 10 {
        seq![digit(n)]
    } else {
        decimal(n / 10).push(digit(n % 10))
    }
}

/// The pieces of `parts`, with `sep` between each two neighbours.
pub open spec fn joined(parts: Seq<Seq<char>>, sep: Seq<char>) -> Seq<char>
    decreases parts.len(),
{
    if parts.len() == 0 {
        Seq::empty()
    } else if parts.len() == 1 {
        parts[0]
    } else {
        joined(parts.drop_last(), sep) + sep + parts.last()
    }
}

/// Characters with the Unicode property White_Space.
pub open spec fn is_whitespace(c: char) -> bool {
    let u = c as u32;
    ||| 0x09 <= u <= 0x0D
    ||| u == 0x20
    ||| u == 0x85
    ||| u == 0xA0
    ||| u == 0x1680
    ||| 0x2000 <= u <= 0x200A
    ||| u == 0x2028
    ||| u == 0x2029
    ||| u == 0x202F
    ||| u == 0x205F
    ||| u == 0x3000
}

/// `s` without the white space at its end.
pub open spec fn trimmed_end(s: Seq<char>) -> Seq<char>
    decreases s.len(),
{
    if s.len() > 0 && is_whitespace(s.last()) {
        trimmed_end(s.drop_last())
    } else {
        s
    }
}

/// Number of newline characters at the end of `s`.
pub open spec fn trailing_newlines(s: Seq<char>) -> nat
    decreases s.len(),
{
    if s.len() > 0 && s.last() == '\n' {
        1 + trailing_newlines(s.drop_last())
    } else {
        0
    }
}

/// Position of the first newline in `s`, or the length of `s` if it has none.
pub open spec fn first_newline(s: Seq<char>) -> int
    decreases s.len(),
{
    if s.len() == 0 || s[0] == '\n' {
        0
    } else {
        1 + first_newline(s.drop_first())
    }
}

/// A line as it stood before a newline: a carriage return directly in front
/// of the newline belongs to the line ending.
pub open spec fn without_carriage_return(line: Seq<char>) -> Seq<char> {
    if line.len() > 0 && line.last() == '\r' {
        line.drop_last()
    } else {
        line
    }
}

/// The lines of `s`. A line ends at a newline, or at a carriage return
/// followed by a newline; the ending is not part of the line. The last line
/// needs no ending, and nothing follows a final line ending: the empty text
/// has no lines.
pub open spec fn lines(s: Seq<char>) -> Seq<Seq<char>>
    decreases s.len(),
{
    if s.len() == 0 {
        Seq::empty()
    } else {
        let k = first_newline(s);
        if 0 <= k < s.len() {
            seq![without_carriage_return(s.take(k))] + lines(s.skip(k + 1))
        } else {
            seq![s]
        }
    }
}

proof fn lemma_first_newline_bounds(s: Seq<char>)
    ensures
        0 <= first_newline(s) <= s.len(),
        first_newline(s) < s.len() ==> s[first_newline(s)] == '\n',
        forall|i: int| 0 <= i < first_newline(s) ==> s[i] != '\n',
    decreases s.len(),
{
    if s.len() == 0 || s[0] == '\n' {
    } else {
        let rest = s.drop_first();
        lemma_first_newline_bounds(rest);
        assert forall|i: int| 0 <= i < first_newline(s) implies s[i] != '\n' by {
            if i > 0 {
                assert(s[i] == rest[i - 1]);
            }
        }
    }
}

/// The first newline is where a newline stands with none before it.
proof fn lemma_first_newline_at(s: Seq<char>, k: int)
    requires
        0 <= k <= s.len(),
        forall|i: int| 0 <= i < k ==> s[i] != '\n',
        k < s.len() ==> s[k] == '\n',
    ensures
        first_newline(s) == k,
    decreases s.len(),
{
    if s.len() == 0 || s[0] == '\n' {
    } else {
        let rest = s.drop_first();
        assert forall|i: int| 0 <= i < k - 1 implies rest[i] != '\n' by {
            assert(rest[i] == s[i + 1]);
        }
        lemma_first_newline_at(rest, k - 1);
    }
}

/// Joining starts with the first piece: what follows it is the separator
/// and the other pieces joined.
pub proof fn lemma_joined_first(first: Seq<char>, others: Seq<Seq<char>>, sep: Seq<char>)
    requires
        others.len() > 0,
    ensures
        joined(seq![first] + others, sep) == first + sep + joined(others, sep),
    decreases others.len(),
{
    let all = seq![first] + others;
    assert(all.last() == others.last());
    if others.len() == 1 {
        assert(all.drop_last() =~= seq![first]);
        assert(joined(all.drop_last(), sep) == first);
    } else {
        assert(all.drop_last() =~= seq![first] + others.drop_last());
        lemma_joined_first(first, others.drop_last(), sep);
        assert(joined(all, sep) =~= first + sep + joined(others, sep));
    }
}

/// Text that is not empty has a line.
proof fn lemma_lines_of_text(s: Seq<char>)
    requires
        s.len() > 0,
    ensures
        lines(s).len() > 0,
{
}

/// Whether a carriage return stands at `i`, directly before a newline.
pub open spec fn return_newline_at(s: Seq<char>, i: int) -> bool {
    0 <= i < s.len() - 1 && s[i] == '\r' && s[i + 1] == '\n'
}

/// Whether a carriage return stands directly before a newline somewhere in
/// `s`.
pub open spec fn has_return_newline(s: Seq<char>) -> bool {
    exists|i: int| return_newline_at(s, i)
}

/// Splitting into lines loses nothing but the line endings: where no
/// carriage return stands before a newline, the lines joined by newlines
/// are the text again, but for a newline at its very end.
pub proof fn lemma_lines_rejoin(s: Seq<char>)
    requires
        !has_return_newline(s),
    ensures
        joined(lines(s), seq!['\n']) == if s.len() > 0 && s.last() == '\n' {
            s.drop_last()
        } else {
            s
        },
    decreases s.len(),
{
    let sep = seq!['\n'];
    if s.len() > 0 {
        lemma_first_newline_bounds(s);
        let k = first_newline(s);
        if k < s.len() {
            let line = s.take(k);
            let rest = s.skip(k + 1);
            if k > 0 && s[k - 1] == '\r' {
                assert(return_newline_at(s, k - 1));
            }
            assert(line.len() > 0 ==> line.last() == s[k - 1]);
            assert(without_carriage_return(line) == line);
            if rest.len() == 0 {
                assert(lines(rest) =~= Seq::<Seq<char>>::empty());
                assert(lines(s) =~= seq![line]);
                assert(line =~= s.drop_last());
            } else {
                assert(!has_return_newline(rest)) by {
                    if has_return_newline(rest) {
                        let i = choose|i: int| return_newline_at(rest, i);
                        assert(return_newline_at(s, k + 1 + i));
                    }
                }
                lemma_lines_rejoin(rest);
                lemma_lines_of_text(rest);
                lemma_joined_first(line, lines(rest), sep);
                assert(s.last() == rest.last());
                if rest.last() == '\n' {
                    assert(line + sep + rest.drop_last() =~= s.drop_last());
                } else {
                    assert(line + sep + rest =~= s);
                }
            }
        } else {
            assert forall|i: int| 0 <= i < s.len() implies s[i] != '\n' by {}
        }
    }
}

/// Whether `line` can stand before a newline and come back as it is: it
/// has no newline in it and does not end in a carriage return.
pub open spec fn is_plain_line(line: Seq<char>) -> bool {
    &&& forall|i: int| 0 <= i < line.len() ==> line[i] != '\n'
    &&& line.len() > 0 ==> line.last() != '\r'
}

/// No line has a newline in it, and where no carriage return stands before
/// a newline in the text, no line that a newline ended ends in a carriage
/// return.
pub proof fn lemma_lines_are_plain(s: Seq<char>)
    ensures
        forall|n: int, i: int|
            0 <= n < lines(s).len() && 0 <= i < lines(s)[n].len() ==> lines(s)[n][i] != '\n',
        !has_return_newline(s) ==> forall|n: int|
            0 <= n < lines(s).len() - 1 ==> is_plain_line(#[trigger] lines(s)[n]),
    decreases s.len(),
{
    if s.len() > 0 {
        lemma_first_newline_bounds(s);
        let k = first_newline(s);
        if k < s.len() {
            let line = s.take(k);
            let rest = s.skip(k + 1);
            lemma_lines_are_plain(rest);
            assert forall|n: int, i: int|
                0 <= n < lines(s).len() && 0 <= i < lines(s)[n].len() implies lines(s)[n][i]
                != '\n' by {
                if n == 0 {
                    assert(lines(s)[0][i] == s[i]);
                } else {
                    assert(lines(s)[n] == lines(rest)[n - 1]);
                }
            }
            if !has_return_newline(s) {
                assert(!has_return_newline(rest)) by {
                    if has_return_newline(rest) {
                        let i = choose|i: int| return_newline_at(rest, i);
                        assert(return_newline_at(s, k + 1 + i));
                    }
                }
                assert forall|n: int| 0 <= n < lines(s).len() - 1 implies is_plain_line(
                    #[trigger] lines(s)[n],
                ) by {
                    if n == 0 {
                        if k > 0 && s[k - 1] == '\r' {
                            assert(return_newline_at(s, k - 1));
                        }
                        assert(line.len() > 0 ==> line.last() == s[k - 1]);
                        assert(lines(s)[0] == line);
                    } else {
                        assert(lines(s)[n] == lines(rest)[n - 1]);
                    }
                }
            }
        }
    }
}

/// Lines joined by newlines come apart into the same lines, if all but
/// the last can stand before a newline, and the last has no newline in it
/// and is not empty.
pub proof fn lemma_lines_of_joined(parts: Seq<Seq<char>>)
    requires
        parts.len() > 0,
        forall|n: int| 0 <= n < parts.len() - 1 ==> is_plain_line(#[trigger] parts[n]),
        forall|i: int| 0 <= i < parts.last().len() ==> parts.last()[i] != '\n',
        parts.last().len() > 0,
    ensures
        lines(joined(parts, seq!['\n'])) == parts,
    decreases parts.len(),
{
    let sep = seq!['\n'];
    let first = parts[0];
    if parts.len() == 1 {
        lemma_first_newline_at(first, first.len() as int);
        assert(lines(first) =~= parts);
    } else {
        let others = parts.drop_first();
        assert(parts =~= seq![first] + others);
        lemma_joined_first(first, others, sep);
        assert forall|n: int| 0 <= n < others.len() - 1 implies is_plain_line(
            #[trigger] others[n],
        ) by {
            assert(others[n] == parts[n + 1]);
        }
        assert(others.last() == parts.last());
        lemma_lines_of_joined(others);
        let all = first + sep + joined(others, sep);
        assert(is_plain_line(first));
        assert(all[first.len() as int] == '\n');
        assert forall|i: int| 0 <= i < first.len() implies all[i] != '\n' by {
            assert(all[i] == first[i]);
        }
        lemma_first_newline_at(all, first.len() as int);
        assert(all.take(first.len() as int) =~= first);
        assert(all.skip(first.len() as int + 1) =~= joined(others, sep));
        assert(lines(all) =~= parts);
    }
}

/// A text has at least as many bytes as characters.
pub proof fn lemma_chars_fit_bytes(s: Seq<char>)
    ensures
        s.len() <= byte_len(s),
    decreases s.len(),
{
    if s.len() > 0 {
        assert(encode_scalar(s[0] as u32).len() >= 1);
        lemma_chars_fit_bytes(s.drop_first());
    }
}

/// Padding to a width that the text does not exceed gives that width.
pub proof fn lemma_padded_width(s: Seq<char>, width: nat)
    requires
        s.len() <= width,
    ensures
        padded(s, width).len() == width,
{
}

/// The bytes of a text with one more character are the bytes of the text
/// and then those of the character.
proof fn lemma_encode_push(s: Seq<char>, c: char)
    ensures
        encode_utf8(s.push(c)) == encode_utf8(s) + encode_scalar(c as u32),
    decreases s.len(),
{
    let longer = s.push(c);
    if s.len() == 0 {
        let none = Seq::<char>::empty();
        assert(longer.drop_first() =~= none);
        assert(encode_utf8(none) =~= Seq::<u8>::empty());
        assert(longer[0] == c);
        assert(encode_utf8(longer) =~= encode_scalar(c as u32) + encode_utf8(none));
        assert(encode_utf8(longer) =~= encode_utf8(s) + encode_scalar(c as u32));
    } else {
        assert(longer.drop_first() =~= s.drop_first().push(c));
        lemma_encode_push(s.drop_first(), c);
        assert(encode_utf8(longer) =~= encode_utf8(s) + encode_scalar(c as u32));
    }
}

/// The newline is encoded in one byte, and no other character has that
/// byte at the end of its encoding.
proof fn lemma_newline_byte(c: char)
    ensures
        encode_scalar(c as u32).len() >= 1,
        encode_scalar(c as u32).last() == 0x0Au8 <==> c == '\n',
        c == '\n' ==> encode_scalar(c as u32).len() == 1,
{
    let v = c as u32;
    if v <= 0x7F {
        assert(((v & 0x7F) as u8 == 0x0Au8) <==> v == 0x0A) by (bit_vector)
            requires
                v <= 0x7F,
        ;
    } else {
        assert((0x80u8 | (v & 0x3F) as u8) != 0x0Au8) by (bit_vector);
    }
}

/// A text ends in a newline exactly when its bytes end in the newline
/// byte, and then the bytes before that byte are those of the text before
/// the newline.
proof fn lemma_last_byte(s: Seq<char>)
    requires
        s.len() > 0,
    ensures
        byte_len(s) > 0,
        encode_utf8(s).last() == 0x0Au8 <==> s.last() == '\n',
        s.last() == '\n' ==> encode_utf8(s).drop_last() == encode_utf8(s.drop_last()),
{
    assert(s.drop_last().push(s.last()) =~= s);
    lemma_encode_push(s.drop_last(), s.last());
    lemma_newline_byte(s.last());
    if s.last() == '\n' {
        assert(encode_utf8(s).drop_last() =~= encode_utf8(s.drop_last()));
    }
}

/// Whether `text` ends in a newline.
pub fn ends_with_newline(text: &str) -> (found: bool)
    ensures
        found == (text@.len() > 0 && text@.last() == '\n'),
{
    let bytes = text.as_bytes();
    let n = bytes.len();
    proof {
        if text@.len() > 0 {
            lemma_last_byte(text@);
        }
    }
    n > 0 && bytes[n - 1] == 0x0A
}

/// Whether `text` ends in two newlines.
pub fn ends_with_blank_line(text: &str) -> (found: bool)
    ensures
        found == (text@.len() > 1 && text@[text@.len() - 1] == '\n' && text@[text@.len() - 2]
            == '\n'),
{
    let bytes = text.as_bytes();
    let n = bytes.len();
    proof {
        let s = text@;
        if s.len() > 0 {
            lemma_last_byte(s);
            if s.last() == '\n' {
                let front = s.drop_last();
                if front.len() > 0 {
                    lemma_last_byte(front);
                    assert(front.last() == s[s.len() - 2]);
                    assert(encode_utf8(s).drop_last().last() == encode_utf8(s)[n - 2]);
                }
            }
        }
    }
    n > 1 && bytes[n - 1] == 0x0A && bytes[n - 2] == 0x0A
}

/// Appends `n` copies of the character `c`.
pub fn push_repeated(out: &mut String, c: char, n: usize)
    ensures
        final(out)@ == old(out)@ + repeated(c, n as nat),
{
    let mut i: usize = 0;
    while i < n
        invariant
            i <= n,
            out@ == old(out)@ + repeated(c, i as nat),
        decreases n - i,
    {
        out.push(c);
        i += 1;
        assert(out@ =~= old(out)@ + repeated(c, i as nat));
    }
}

/// Appends `cell`, then spaces until `width` characters stand there.
pub fn push_padded(out: &mut String, cell: &str, width: usize)
    ensures
        final(out)@ == old(out)@ + padded(cell@, width as nat),
{
    let count = cell.unicode_len();
    out.append(cell);
    if count < width {
        push_repeated(out, ' ', width - count);
    } else {
        assert(out@ =~= old(out)@ + padded(cell@, width as nat));
    }
}

/// Length of `text` in bytes.
pub fn byte_length(text: &str) -> (n: usize)
    ensures
        n == byte_len(text@),
{
    text.as_bytes().len()
}

fn digit_char(d: usize) -> (c: char)
    requires
        d < 10,
    ensures
        c == digit(d as nat),
{
    if d == 0 {
        '0'
    } else if d == 1 {
        '1'
    } else if d == 2 {
        '2'
    } else if d == 3 {
        '3'
    } else if d == 4 {
        '4'
    } else if d == 5 {
        '5'
    } else if d == 6 {
        '6'
    } else if d == 7 {
        '7'
    } else if d == 8 {
        '8'
    } else {
        '9'
    }
}

/// Appends `n` in decimal notation.
pub fn push_decimal(out: &mut String, n: usize)
    ensures
        final(out)@ == old(out)@ + decimal(n as nat),
    decreases n,
{
    if n >= 10 {
        push_decimal(out, n / 10);
    }
    out.push(digit_char(n % 10));
    assert(out@ =~= old(out)@ + decimal(n as nat));
}

/// Whether `c` is white space.
pub fn is_space(c: char) -> (b: bool)
    ensures
        b == is_whitespace(c),
{
    let u: u32 = c as u32;
    (0x09 <= u && u <= 0x0D) || u == 0x20 || u == 0x85 || u == 0xA0 || u == 0x1680 || (0x2000 <= u
        && u <= 0x200A) || u == 0x2028 || u == 0x2029 || u == 0x202F || u == 0x205F || u == 0x3000
}

/// The texts that a vector of strings holds.
pub open spec fn texts(v: Seq<String>) -> Seq<Seq<char>> {
    Seq::new(v.len(), |i: int| v[i]@)
}

/// White space after something that does not end in white space is all
/// that trimming removes.
pub proof fn lemma_trimmed_end(kept: Seq<char>, space: Seq<char>)
    requires
        kept.len() == 0 || !is_whitespace(kept.last()),
        forall|i: int| 0 <= i < space.len() ==> is_whitespace(space[i]),
    ensures
        trimmed_end(kept + space) == kept,
    decreases space.len(),
{
    if space.len() == 0 {
        assert(kept + space =~= kept);
    } else {
        assert((kept + space).last() == space.last());
        assert((kept + space).drop_last() =~= kept + space.drop_last());
        lemma_trimmed_end(kept, space.drop_last());
    }
}

/// A copy of `text` without the white space at its end.
pub fn trim_end(text: &str) -> (out: String)
    ensures
        out@ == trimmed_end(text@),
{
    let mut out = String::new();
    let mut space = String::new();
    for c in it: text.chars()
        invariant
            it.seq() == text@,
            out@ + space@ == text@.take(it.index() as int),
            out@.len() == 0 || !is_whitespace(out@.last()),
            forall|i: int| 0 <= i < space@.len() ==> is_whitespace(space@[i]),
    {
        let ghost before = out@ + space@;
        if is_space(c) {
            space.push(c);
            assert(out@ + space@ =~= before.push(c));
        } else {
            out.append(space.as_str());
            out.push(c);
            space = String::new();
            assert(out@ + space@ =~= before.push(c));
        }
        assert(text@.take(it.index() + 1) =~= text@.take(it.index() as int).push(c));
    }
    proof {
        assert(text@.take(text@.len() as int) =~= text@);
        lemma_trimmed_end(out@, space@);
    }
    out
}

/// The lines of `text`, each as a string of its own.
pub fn split_lines(text: &str) -> (out: Vec<String>)
    ensures
        texts(out@) == lines(text@),
{
    let mut out: Vec<String> = Vec::new();
    let mut current = String::new();
    let mut held_return = false;
    let ghost mut start: int = 0;
    proof {
        assert(text@.skip(0) =~= text@);
        assert(texts(out@) + lines(text@) =~= lines(text@));
    }
    for c in it: text.chars()
        invariant
            it.seq() == text@,
            0 <= start <= it.index() <= text@.len(),
            current@ + (if held_return {
                seq!['\r']
            } else {
                Seq::<char>::empty()
            }) == text@.subrange(start, it.index() as int),
            !held_return ==> current@.len() == 0 || current@.last() != '\r',
            forall|j: int| start <= j < it.index() ==> text@[j] != '\n',
            lines(text@) == texts(out@) + lines(text@.skip(start)),
    {
        let ghost i = it.index() as int;
        let ghost seen = text@.subrange(start, i);
        assert(text@.subrange(start, i + 1) =~= seen.push(c));
        if c == '\n' {
            proof {
                let rest = text@.skip(start);
                assert forall|j: int| 0 <= j < i - start implies rest[j] != '\n' by {
                    assert(rest[j] == text@[start + j]);
                }
                lemma_first_newline_at(rest, i - start);
                assert(rest.take(i - start) =~= seen);
                assert(rest.skip(i - start + 1) =~= text@.skip(i + 1));
                if held_return {
                    assert(seen.last() == '\r');
                    assert(seen.drop_last() =~= current@);
                } else {
                    assert(seen =~= current@);
                }
                assert(without_carriage_return(seen) == current@);
            }
            let ghost before = texts(out@);
            out.push(current);
            assert(texts(out@) =~= before + seq![without_carriage_return(seen)]);
            current = String::new();
            held_return = false;
            proof {
                start = i + 1;
                assert(text@.subrange(start, i + 1) =~= Seq::<char>::empty());
            }
        } else if c == '\r' {
            if held_return {
                current.push('\r');
            }
            held_return = true;
            assert(current@ + seq!['\r'] =~= seen.push(c));
        } else {
            if held_return {
                current.push('\r');
                held_return = false;
            }
            current.push(c);
            assert(current@ + Seq::<char>::empty() =~= seen.push(c));
        }
    }
    if held_return {
        current.push('\r');
    }
    proof {
        let rest = text@.skip(start);
        assert(rest =~= text@.subrange(start, text@.len() as int));
        assert(rest =~= current@);
        if rest.len() > 0 {
            assert forall|j: int| 0 <= j < rest.len() implies rest[j] != '\n' by {
                assert(rest[j] == text@[start + j]);
            }
            lemma_first_newline_at(rest, rest.len() as int);
        }
    }
    if !current.as_str().is_empty() {
        let ghost before = texts(out@);
        out.push(current);
        assert(texts(out@) =~= before + seq![text@.skip(start)]);
    } else {
        assert(texts(out@) + Seq::<Seq<char>>::empty() =~= texts(out@));
    }
    out
}

} // verus!
