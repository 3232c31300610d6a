//! Verified string helpers: decimal formatting, prefix tests, splitting on a
//! separator, and substring replacement. Everything is specified over the
//! `Seq<char>` view of `&str` / `String`.

use vstd::prelude::*;
use vstd::string::*;

verus! {

/// The character for a single decimal digit.
pub open spec fn digit_char(d: nat) -> char {
    if d == 0 {
        '0'
    } else if d == 1 {
        '1'
    } else if d == 2 {
        '2'
    } else if d == 3 {
        '3'
    } else if d == 4 {
        '4'
    } else if d == 5 {
        '5'
    } else if d == 6 {
        '6'
    } else if d == 7 {
        '7'
    } else if d == 8 {
        '8'
    } else {
        '9'
    }
}

/// The decimal digit string of `n`, without leading zeros (`0` is "0").
pub open spec fn dec_digits(n: nat) -> Seq<char>
    decreases n,
{
    if n < 10 {
        seq![digit_char(n)]
    } else {
        dec_digits(n / 10) + seq![digit_char(n % 10)]
    }
}

fn digit_str(d: u64) -> (r: &'static str)
    requires
        d < 10,
    ensures
        r@ =~= seq![digit_char(d as nat)],
{
    proof {
        reveal_strlit("0");
        reveal_strlit("1");
        reveal_strlit("2");
        reveal_strlit("3");
        reveal_strlit("4");
        reveal_strlit("5");
        reveal_strlit("6");
        reveal_strlit("7");
        reveal_strlit("8");
        reveal_strlit("9");
    }
    match d {
        0 => "0",
        1 => "1",
        2 => "2",
        3 => "3",
        4 => "4",
        5 => "5",
        6 => "6",
        7 => "7",
        8 => "8",
        _ => "9",
    }
}

/// Formats `n` in decimal.
pub fn u64_to_string(n: u64) -> (r: String)
    ensures
        r@ == dec_digits(n as nat),
    decreases n,
{
    if n < 10 {
        digit_str(n).to_owned()
    } else {
        let mut s = u64_to_string(n / 10);
        s.append(digit_str(n % 10));
        assert(s@ =~= dec_digits(n as nat));
        s
    }
}

/// Formats `n` in decimal.
pub fn u32_to_string(n: u32) -> (r: String)
    ensures
        r@ == dec_digits(n as nat),
{
    u64_to_string(n as u64)
}

/// A lowercase hexadecimal digit raised to uppercase; anything else is
/// kept.
pub open spec fn upper_hex_char(c: char) -> char {
    if c == 'a' {
        'A'
    } else if c == 'b' {
        'B'
    } else if c == 'c' {
        'C'
    } else if c == 'd' {
        'D'
    } else if c == 'e' {
        'E'
    } else if c == 'f' {
        'F'
    } else {
        c
    }
}

/// The string with its lowercase hexadecimal digits raised to uppercase.
pub open spec fn upper_hex(s: Seq<char>) -> Seq<char> {
    s.map_values(|c: char| upper_hex_char(c))
}

/// Raises the lowercase hexadecimal digits of `s` to uppercase, keeping
/// every other character.
pub fn upper_hex_str(s: &str) -> (r: String)
    ensures
        r@ == upper_hex(s@),
{
    proof {
        reveal_strlit("A");
        reveal_strlit("B");
        reveal_strlit("C");
        reveal_strlit("D");
        reveal_strlit("E");
        reveal_strlit("F");
    }
    let len = s.unicode_len();
    let mut out = String::new();
    let mut i: usize = 0;
    proof {
        assert(out@ =~= upper_hex(s@).take(0));
    }
    while i < len
        invariant
            0 <= i <= len,
            len == s@.len(),
            out@ == upper_hex(s@).take(i as int),
        decreases len - i,
    {
        proof {
            reveal_strlit("A");
            reveal_strlit("B");
            reveal_strlit("C");
            reveal_strlit("D");
            reveal_strlit("E");
            reveal_strlit("F");
        }
        let c = s.get_char(i);
        if c == 'a' {
            out.append("A");
        } else if c == 'b' {
            out.append("B");
        } else if c == 'c' {
            out.append("C");
        } else if c == 'd' {
            out.append("D");
        } else if c == 'e' {
            out.append("E");
        } else if c == 'f' {
            out.append("F");
        } else {
            let kept = s.substring_char(i, i + 1);
            proof {
                assert(kept@ =~= seq![s@[i as int]]);
            }
            out.append(kept);
        }
        proof {
            assert(upper_hex(s@).take(i + 1) =~= upper_hex(s@).take(i as int).push(
                upper_hex_char(s@[i as int]),
            ));
            assert(out@ =~= upper_hex(s@).take(i + 1));
        }
        i += 1;
    }
    proof {
        assert(upper_hex(s@).take(len as int) =~= upper_hex(s@));
    }
    out
}

/// `p` is an initial segment of `s`.
pub open spec fn is_prefix_of(p: Seq<char>, s: Seq<char>) -> bool {
    p.len() <= s.len() && s.subrange(0, p.len() as int) == p
}

/// Prefix test over characters.
pub fn str_starts_with(s: &str, p: &str) -> (r: bool)
    ensures
        r == is_prefix_of(p@, s@),
{
    let s_len = s.unicode_len();
    let p_len = p.unicode_len();
    if p_len > s_len {
        return false;
    }
    let mut i: usize = 0;
    while i < p_len
        invariant
            0 <= i <= p_len <= s_len,
            s_len == s@.len(),
            p_len == p@.len(),
            forall|j: int| 0 <= j < i ==> s@[j] == p@[j],
        decreases p_len - i,
    {
        if s.get_char(i) != p.get_char(i) {
            assert(s@.subrange(0, p@.len() as int) != p@) by {
                assert(s@.subrange(0, p@.len() as int)[i as int] != p@[i as int]);
            }
            return false;
        }
        i += 1;
    }
    assert(s@.subrange(0, p@.len() as int) =~= p@);
    true
}

/// Character-for-character string equality.
pub fn str_eq(a: &str, b: &str) -> (r: bool)
    ensures
        r == (a@ == b@),
{
    if a.unicode_len() != b.unicode_len() {
        return false;
    }
    if str_starts_with(a, b) {
        assert(a@.subrange(0, b@.len() as int) =~= a@);
        true
    } else {
        assert(a@.subrange(0, b@.len() as int) =~= a@);
        false
    }
}

/// What remains of `s` after removing the prefix `p`, when `p` is a prefix.
pub fn str_strip_prefix(s: &str, p: &str) -> (r: Option<String>)
    ensures
        is_prefix_of(p@, s@) ==> (r matches Some(t) && t@ == s@.skip(p@.len() as int)),
        !is_prefix_of(p@, s@) ==> r is None,
{
    if str_starts_with(s, p) {
        let rest = s.substring_char(p.unicode_len(), s.unicode_len());
        assert(rest@ =~= s@.skip(p@.len() as int));
        Some(rest.to_owned())
    } else {
        None
    }
}

/// Index of the first occurrence of `sep` in `s`, or `s.len()` if there is
/// none.
pub open spec fn first_index(s: Seq<char>, sep: char) -> int
    decreases s.len(),
{
    if s.len() == 0 {
        0
    } else if s[0] == sep {
        0
    } else {
        1 + first_index(s.drop_first(), sep)
    }
}

pub proof fn lemma_first_index(s: Seq<char>, sep: char)
    ensures
        0 <= first_index(s, sep) <= s.len(),
        forall|j: int| 0 <= j < first_index(s, sep) ==> s[j] != sep,
        first_index(s, sep) < s.len() ==> s[first_index(s, sep)] == sep,
    decreases s.len(),
{
    if s.len() != 0 && s[0] != sep {
        lemma_first_index(s.drop_first(), sep);
        assert forall|j: int| 0 <= j < first_index(s, sep) implies s[j] != sep by {
            if j > 0 {
                assert(s.drop_first()[j - 1] != sep);
            }
        }
    }
}

/// If the first `i` characters avoid `sep`, and `sep` sits at `i` unless `i`
/// is the end, then `i` is the first occurrence.
pub proof fn lemma_first_index_exact(s: Seq<char>, sep: char, i: int)
    requires
        0 <= i <= s.len(),
        forall|j: int| 0 <= j < i ==> s[j] != sep,
        i < s.len() ==> s[i] == sep,
    ensures
        first_index(s, sep) == i || (i == s.len() && first_index(s, sep) == s.len()),
        first_index(s, sep) == i,
    decreases s.len(),
{
    if s.len() == 0 {
    } else if s[0] == sep {
        assert(i == 0);
    } else {
        assert(i >= 1);
        assert forall|j: int| 0 <= j < i - 1 implies s.drop_first()[j] != sep by {
            assert(s[j + 1] != sep);
        }
        if i - 1 < s.drop_first().len() {
            assert(s.drop_first()[i - 1] == s[i]);
        }
        lemma_first_index_exact(s.drop_first(), sep, i - 1);
    }
}

/// The pieces of `s` between occurrences of `sep`; always at least one piece.
pub open spec fn split_chars(s: Seq<char>, sep: char) -> Seq<Seq<char>>
    decreases s.len(),
{
    let i = first_index(s, sep);
    if 0 <= i < s.len() {
        seq![s.take(i)] + split_chars(s.skip(i + 1), sep)
    } else {
        seq![s]
    }
}

/// Splitting a separator-free string yields that one piece.
pub proof fn lemma_split_chars_whole(s: Seq<char>, sep: char)
    requires
        forall|j: int| 0 <= j < s.len() ==> s[j] != sep,
    ensures
        split_chars(s, sep) =~= seq![s],
{
    lemma_first_index_exact(s, sep, s.len() as int);
}

/// Splitting decomposes at the first separator.
pub proof fn lemma_split_chars_step(s: Seq<char>, sep: char, i: int)
    requires
        0 <= i < s.len(),
        forall|j: int| 0 <= j < i ==> s[j] != sep,
        s[i] == sep,
    ensures
        split_chars(s, sep) =~= seq![s.take(i)] + split_chars(s.skip(i + 1), sep),
{
    lemma_first_index_exact(s, sep, i);
}

/// Splits `s` on `sep`, as `str::split` does for a character pattern.
pub fn split_str(s: &str, sep: char) -> (r: Vec<String>)
    ensures
        r@.map_values(|p: String| p@) == split_chars(s@, sep),
{
    let len = s.unicode_len();
    let mut pieces: Vec<String> = Vec::new();
    let mut start: usize = 0;
    let mut i: usize = 0;
    proof {
        assert(s@.skip(0) =~= s@);
        assert(pieces@.map_values(|p: String| p@) =~= Seq::<Seq<char>>::empty());
    }
    while i < len
        invariant
            0 <= start <= i <= len,
            len == s@.len(),
            forall|j: int| start <= j < i ==> s@[j] != sep,
            split_chars(s@, sep) == pieces@.map_values(|p: String| p@) + split_chars(
                s@.skip(start as int),
                sep,
            ),
        decreases len - i,
    {
        if s.get_char(i) == sep {
            let piece = s.substring_char(start, i).to_owned();
            proof {
                let tail = s@.skip(start as int);
                assert forall|j: int| 0 <= j < i - start implies tail[j] != sep by {
                    assert(tail[j] == s@[j + start]);
                }
                assert(tail[i - start] == s@[i as int]);
                lemma_split_chars_step(tail, sep, i - start);
                assert(tail.take(i - start) =~= s@.subrange(start as int, i as int));
                assert(tail.skip(i - start + 1) =~= s@.skip(i + 1));
            }
            let ghost old_pieces = pieces@;
            pieces.push(piece);
            proof {
                assert(pieces@.map_values(|p: String| p@) =~= old_pieces.map_values(
                    |p: String| p@,
                ) + seq![s@.subrange(start as int, i as int)]);
            }
            start = i + 1;
        }
        i += 1;
    }
    let piece = s.substring_char(start, len).to_owned();
    proof {
        let tail = s@.skip(start as int);
        assert forall|j: int| 0 <= j < tail.len() implies tail[j] != sep by {
            assert(tail[j] == s@[j + start]);
        }
        lemma_split_chars_whole(tail, sep);
        assert(tail =~= s@.subrange(start as int, len as int));
    }
    let ghost old_pieces = pieces@;
    pieces.push(piece);
    proof {
        assert(pieces@.map_values(|p: String| p@) =~= old_pieces.map_values(|p: String| p@)
            + seq![s@.subrange(start as int, len as int)]);
        assert(pieces@.map_values(|p: String| p@) =~= split_chars(s@, sep));
    }
    pieces
}

/// `s` with every non-overlapping occurrence of `from` replaced by `to`,
/// scanning left to right, as `str::replace` does for a nonempty pattern.
pub open spec fn replace_all(s: Seq<char>, from: Seq<char>, to: Seq<char>) -> Seq<char>
    recommends
        from.len() > 0,
    decreases s.len(),
    when from.len() > 0
{
    if s.len() < from.len() {
        s
    } else if s.take(from.len() as int) == from {
        to + replace_all(s.skip(from.len() as int), from, to)
    } else {
        seq![s[0]] + replace_all(s.drop_first(), from, to)
    }
}

/// Replaces every occurrence of `from` in `s` with `to`.
pub fn str_replace(s: &str, from: &str, to: &str) -> (r: String)
    requires
        from@.len() > 0,
    ensures
        r@ == replace_all(s@, from@, to@),
{
    let len = s.unicode_len();
    let from_len = from.unicode_len();
    let mut out = String::new();
    let mut i: usize = 0;
    proof {
        assert(s@.skip(0) =~= s@);
    }
    while i < len
        invariant
            0 <= i <= len,
            len == s@.len(),
            from_len == from@.len(),
            from_len > 0,
            replace_all(s@, from@, to@) == out@ + replace_all(s@.skip(i as int), from@, to@),
        decreases len - i,
    {
        let ghost tail = s@.skip(i as int);
        let matched = if from_len <= len - i {
            let window = s.substring_char(i, i + from_len);
            proof {
                assert(window@ =~= tail.take(from@.len() as int));
            }
            str_starts_with(window, from)
        } else {
            false
        };
        if matched {
            proof {
                assert(tail.take(from@.len() as int) =~= from@);
                assert(tail.skip(from@.len() as int) =~= s@.skip(i + from_len));
            }
            out.append(to);
            i = i + from_len;
        } else {
            proof {
                if tail.len() >= from@.len() {
                    assert(tail.take(from@.len() as int) != from@) by {
                        if tail.take(from@.len() as int) == from@ {
                            assert(tail.take(from@.len() as int).subrange(
                                0,
                                from@.len() as int,
                            ) =~= tail.take(from@.len() as int));
                            assert(is_prefix_of(from@, tail.take(from@.len() as int)));
                        }
                    }
                }
                assert(tail.drop_first() =~= s@.skip(i + 1));
                assert(replace_all(tail, from@, to@) == seq![tail[0]] + replace_all(
                    s@.skip(i + 1),
                    from@,
                    to@,
                ));
            }
            let c = s.substring_char(i, i + 1);
            proof {
                assert(c@ =~= seq![s@[i as int]]);
            }
            out.append(c);
            i = i + 1;
        }
    }
    proof {
        assert(s@.skip(len as int) =~= Seq::<char>::empty());
    }
    out
}

} // verus!
