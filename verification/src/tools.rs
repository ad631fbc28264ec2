use vstd::prelude::*;
use crate::text::{chars_of, join_strings, join_with, push_char, strip_line_end, trim_newline};

verus! {

broadcast use vstd::string::group_string_axioms;

/// The first character of a line of input, or a newline when the line is empty.
pub fn get_char(input_text: &str) -> (c: char)
    ensures
        input_text@.len() > 0 ==> c == input_text@[0],
        input_text@.len() == 0 ==> c == '\n',
{
    if input_text.unicode_len() > 0 {
        input_text.get_char(0)
    } else {
        '\n'
    }
}

/// The characters with the Unicode `White_Space` property (what `char::is_whitespace` tests).
pub open spec fn is_white_space(c: char) -> bool {
    ||| ('\u{9}' <= c && c <= '\u{d}')
    ||| c == ' '
    ||| c == '\u{85}'
    ||| c == '\u{a0}'
    ||| c == '\u{1680}'
    ||| ('\u{2000}' <= c && c <= '\u{200a}')
    ||| c == '\u{2028}'
    ||| c == '\u{2029}'
    ||| c == '\u{202f}'
    ||| c == '\u{205f}'
    ||| c == '\u{3000}'
}

/// Whether a character is white space.
pub fn white_space(c: char) -> (r: bool)
    ensures
        r == is_white_space(c),
{
    ('\u{9}' <= c && c <= '\u{d}') || c == ' ' || c == '\u{85}' || c == '\u{a0}' || c == '\u{1680}'
        || ('\u{2000}' <= c && c <= '\u{200a}') || c == '\u{2028}' || c == '\u{2029}'
        || c == '\u{202f}' || c == '\u{205f}' || c == '\u{3000}'
}

/// `s` without its leading white space.
pub open spec fn trim_start(s: Seq<char>) -> Seq<char>
    decreases s.len(),
{
    if s.len() > 0 && is_white_space(s[0]) {
        trim_start(s.drop_first())
    } else {
        s
    }
}

/// `s` without its trailing white space.
pub open spec fn trim_end(s: Seq<char>) -> Seq<char>
    decreases s.len(),
{
    if s.len() > 0 && is_white_space(s.last()) {
        trim_end(s.drop_last())
    } else {
        s
    }
}

/// `s` without leading and trailing white space (what `str::trim` gives).
pub open spec fn trimmed(s: Seq<char>) -> Seq<char> {
    trim_end(trim_start(s))
}

/// Removes leading and trailing white space.
pub fn trim(s: &str) -> (r: String)
    ensures
        r@ == trimmed(s@),
{
    let chars = chars_of(s);
    let n = chars.len();
    let mut i: usize = 0;
    assert(s@.skip(0) =~= s@);
    while i < n && white_space(chars[i])
        invariant
            chars@ == s@,
            n == chars.len(),
            i <= n,
            trim_start(s@) == trim_start(s@.skip(i as int)),
        decreases n - i,
    {
        assert(s@.skip(i as int).drop_first() =~= s@.skip(i + 1));
        i = i + 1;
    }
    assert(trim_start(s@) == s@.skip(i as int));
    let mut j: usize = n;
    assert(s@.skip(i as int) =~= s@.subrange(i as int, n as int));
    while j > i && white_space(chars[j - 1])
        invariant
            chars@ == s@,
            n == chars.len(),
            i <= j <= n,
            trim_end(s@.subrange(i as int, n as int)) == trim_end(s@.subrange(i as int, j as int)),
        decreases j,
    {
        assert(s@.subrange(i as int, j as int).drop_last() =~= s@.subrange(i as int, j - 1));
        j = j - 1;
    }
    assert(trim_end(s@.subrange(i as int, j as int)) == s@.subrange(i as int, j as int));
    String::from_str(s.substring_char(i, j))
}

} // verus!

verus! {

/// `s` with every occurrence of `c` left out.
pub open spec fn without(s: Seq<char>, c: char) -> Seq<char>
    decreases s.len(),
{
    if s.len() == 0 {
        Seq::empty()
    } else if s.last() == c {
        without(s.drop_last(), c)
    } else {
        without(s.drop_last(), c).push(s.last())
    }
}

/// The text with every occurrence of a character left out.
pub fn without_char(text: &str, c: char) -> (r: String)
    ensures
        r@ == without(text@, c),
{
    let chars = chars_of(text);
    let mut r = String::new();
    let mut i: usize = 0;
    while i < chars.len()
        invariant
            chars@ == text@,
            i <= chars.len(),
            r@ == without(text@.take(i as int), c),
        decreases chars.len() - i,
    {
        assert(text@.take(i + 1).drop_last() =~= text@.take(i as int));
        assert(text@.take(i + 1).last() == chars@[i as int]);
        if chars[i] != c {
            push_char(&mut r, chars[i]);
        }
        i = i + 1;
    }
    assert(text@.take(i as int) =~= text@);
    r
}

/// The input, trimmed, with every occurrence of the chosen character left out.
pub fn remove_character(input_text: &str, input_char: char) -> (r: String)
    ensures
        r@ == without(trimmed(input_text@), input_char),
{
    let t = trim(input_text);
    without_char(t.as_str(), input_char)
}

/// What `str::to_uppercase` gives for a text.
pub uninterp spec fn uppercase_text(s: Seq<char>) -> Seq<char>;

/// What `char::to_uppercase` gives for a character, as a string.
pub uninterp spec fn char_uppercase_text(c: char) -> Seq<char>;

/// What `char::to_lowercase` gives for a character, as a string.
pub uninterp spec fn char_lowercase_text(c: char) -> Seq<char>;

/// The text in upper case, by `str::to_uppercase`. Trusted: the contract claims that the
/// result depends on the text's characters alone, and names it `uppercase_text`; the Unicode
/// case mapping itself is not stated.
#[verifier::external_body]
fn to_uppercase(s: &str) -> (r: String)
    ensures
        r@ == uppercase_text(s@),
{
    s.to_uppercase()
}

/// The upper case of a character, by `char::to_uppercase`, collected into a string. Trusted:
/// the contract claims that the result depends on the character alone, and names it
/// `char_uppercase_text`; the Unicode case mapping itself is not stated.
#[verifier::external_body]
fn char_to_uppercase(c: char) -> (r: String)
    ensures
        r@ == char_uppercase_text(c),
{
    c.to_uppercase().to_string()
}

/// The lower case of a character, by `char::to_lowercase`, collected into a string. Trusted:
/// the contract claims that the result depends on the character alone, and names it
/// `char_lowercase_text`; the Unicode case mapping itself is not stated.
#[verifier::external_body]
fn char_to_lowercase(c: char) -> (r: String)
    ensures
        r@ == char_lowercase_text(c),
{
    c.to_lowercase().to_string()
}

/// The input, trimmed, in upper case.
pub fn all_to_uppercase(input_text: &str) -> (r: String)
    ensures
        r@ == uppercase_text(trimmed(input_text@)),
{
    let t = trim(input_text);
    to_uppercase(t.as_str())
}

/// `s` with each occurrence of `target` replaced by `replacement`.
pub open spec fn replace_char(s: Seq<char>, target: char, replacement: Seq<char>) -> Seq<char>
    decreases s.len(),
{
    if s.len() == 0 {
        Seq::empty()
    } else if s.last() == target {
        replace_char(s.drop_last(), target, replacement) + replacement
    } else {
        replace_char(s.drop_last(), target, replacement).push(s.last())
    }
}

/// The text with each occurrence of a character replaced by a string.
pub fn replace_char_with(text: &str, target: char, replacement: &str) -> (r: String)
    ensures
        r@ == replace_char(text@, target, replacement@),
{
    let chars = chars_of(text);
    let mut r = String::new();
    let mut i: usize = 0;
    while i < chars.len()
        invariant
            chars@ == text@,
            i <= chars.len(),
            r@ == replace_char(text@.take(i as int), target, replacement@),
        decreases chars.len() - i,
    {
        assert(text@.take(i + 1).drop_last() =~= text@.take(i as int));
        assert(text@.take(i + 1).last() == chars@[i as int]);
        let c = chars[i];
        if c == target {
            r.append(replacement);
        } else {
            push_char(&mut r, c);
        }
        i = i + 1;
    }
    assert(text@.take(i as int) =~= text@);
    r
}

/// The input, trimmed, with the chosen character changed to upper case for the choice `'u'`
/// or to lower case for `'l'`; empty for any other choice.
pub fn char_change_case(input_text: &str, input_char: char, chosen_case: char) -> (r: String)
    ensures
        chosen_case == 'u' ==> r@ == replace_char(trimmed(input_text@), input_char, char_uppercase_text(input_char)),
        chosen_case == 'l' ==> r@ == replace_char(trimmed(input_text@), input_char, char_lowercase_text(input_char)),
        chosen_case != 'u' && chosen_case != 'l' ==> r@ == Seq::<char>::empty(),
{
    if chosen_case != 'u' && chosen_case != 'l' {
        return String::new();
    }
    let replacement = if chosen_case == 'u' {
        char_to_uppercase(input_char)
    } else {
        char_to_lowercase(input_char)
    };
    let t = trim(input_text);
    replace_char_with(t.as_str(), input_char, replacement.as_str())
}

} // verus!

verus! {

/// Whether `s` begins with `pat`.
pub open spec fn starts_with(s: Seq<char>, pat: Seq<char>) -> bool {
    pat.len() <= s.len() && s.take(pat.len() as int) == pat
}

/// The pieces of `s` between the occurrences of a non-empty `pat`, found from the left
/// without overlapping.
pub open spec fn split_nonempty(s: Seq<char>, pat: Seq<char>) -> Seq<Seq<char>>
    decreases s.len(),
{
    if s.len() == 0 {
        seq![Seq::empty()]
    } else if pat.len() > 0 && starts_with(s, pat) {
        seq![Seq::empty()] + split_nonempty(s.skip(pat.len() as int), pat)
    } else {
        let r = split_nonempty(s.drop_first(), pat);
        r.update(0, seq![s[0]] + r[0])
    }
}

/// The pieces that `str::split` gives for a string pattern: for an empty pattern, an empty
/// piece, each character, and an empty piece.
pub open spec fn split_pattern(s: Seq<char>, pat: Seq<char>) -> Seq<Seq<char>> {
    if pat.len() == 0 {
        seq![Seq::empty()] + Seq::new(s.len(), |i: int| seq![s[i]]) + seq![Seq::empty()]
    } else {
        split_nonempty(s, pat)
    }
}

/// What the text splitter prints: the text split by the splitter, both without their line
/// end, with the pieces joined by `|`.
pub open spec fn split_by_string_text(input_text: Seq<char>, splitter: Seq<char>) -> Seq<char> {
    join_with(split_pattern(strip_line_end(input_text), strip_line_end(splitter)), "|"@)
}

proof fn lemma_split_nonempty_len(s: Seq<char>, pat: Seq<char>)
    ensures
        split_nonempty(s, pat).len() >= 1,
    decreases s.len(),
{
    if s.len() > 0 {
        if pat.len() > 0 && starts_with(s, pat) {
            lemma_split_nonempty_len(s.skip(pat.len() as int), pat);
        } else {
            lemma_split_nonempty_len(s.drop_first(), pat);
        }
    }
}

spec fn glue(done: Seq<Seq<char>>, cur: Seq<char>, rest: Seq<Seq<char>>) -> Seq<Seq<char>> {
    done + seq![cur + rest[0]] + rest.drop_first()
}

/// Whether `pat` occurs in `s` at position `i`.
fn occurs_at(s: &Vec<char>, pat: &Vec<char>, i: usize) -> (r: bool)
    requires
        i <= s.len(),
    ensures
        r == starts_with(s@.skip(i as int), pat@),
{
    if pat.len() > s.len() - i {
        return false;
    }
    let mut k: usize = 0;
    while k < pat.len()
        invariant
            pat.len() <= s.len() - i,
            k <= pat.len(),
            forall|m: int| 0 <= m < k ==> s@[i + m] == pat@[m],
        decreases pat.len() - k,
    {
        if s[i + k] != pat[k] {
            assert(s@.skip(i as int).take(pat.len() as int)[k as int] != pat@[k as int]);
            return false;
        }
        k = k + 1;
    }
    assert(s@.skip(i as int).take(pat.len() as int) =~= pat@);
    true
}

/// Splits a text at the occurrences of a pattern (`str::split` with a string pattern).
pub fn split_pieces(s: &str, pat: &str) -> (r: Vec<String>)
    ensures
        r.deep_view() == split_pattern(s@, pat@),
{
    let cs = chars_of(s);
    let ps = chars_of(pat);
    let n = cs.len();
    let mut done: Vec<String> = Vec::new();
    if ps.len() == 0 {
        done.push(String::new());
        let mut i: usize = 0;
        while i < n
            invariant
                cs@ == s@,
                n == cs.len(),
                i <= n,
                done.deep_view() == seq![Seq::<char>::empty()] + Seq::new(i as nat, |k: int| seq![s@[k]]),
            decreases n - i,
        {
            let mut one = String::new();
            push_char(&mut one, cs[i]);
            let ghost before = done.deep_view();
            done.push(one);
            assert(done.deep_view() =~= before.push(seq![s@[i as int]]));
            assert(seq![Seq::<char>::empty()] + Seq::new((i + 1) as nat, |k: int| seq![s@[k]])
                =~= (seq![Seq::<char>::empty()] + Seq::new(i as nat, |k: int| seq![s@[k]])).push(seq![s@[i as int]]));
            i = i + 1;
        }
        let ghost before = done.deep_view();
        done.push(String::new());
        assert(done.deep_view() =~= before.push(Seq::<char>::empty()));
        assert(done.deep_view() =~= split_pattern(s@, pat@));
        return done;
    }
    let ghost whole = split_nonempty(s@, pat@);
    let mut cur = String::new();
    let mut i: usize = 0;
    proof {
        lemma_split_nonempty_len(s@, pat@);
    }
    assert(s@.skip(0) =~= s@);
    assert(glue(done.deep_view(), cur@, whole) =~= whole);
    while i < n
        invariant
            cs@ == s@,
            ps@ == pat@,
            pat@.len() > 0,
            n == cs.len(),
            i <= n,
            whole == split_nonempty(s@, pat@),
            whole == glue(done.deep_view(), cur@, split_nonempty(s@.skip(i as int), pat@)),
        decreases n - i,
    {
        let ghost rest = s@.skip(i as int);
        if occurs_at(&cs, &ps, i) {
            let ghost tail = split_nonempty(rest.skip(pat@.len() as int), pat@);
            proof {
                lemma_split_nonempty_len(rest.skip(pat@.len() as int), pat@);
            }
            assert(split_nonempty(rest, pat@) == seq![Seq::<char>::empty()] + tail);
            let ghost before = done.deep_view();
            let piece = cur;
            done.push(piece);
            cur = String::new();
            assert(done.deep_view() =~= before.push(piece@));
            i = i + ps.len();
            assert(rest.skip(pat@.len() as int) =~= s@.skip(i as int));
            assert(glue(before, piece@, seq![Seq::<char>::empty()] + tail) =~= glue(
                done.deep_view(),
                cur@,
                tail,
            ));
        } else {
            let ghost r = split_nonempty(rest.drop_first(), pat@);
            proof {
                lemma_split_nonempty_len(rest.drop_first(), pat@);
            }
            assert(split_nonempty(rest, pat@) == r.update(0, seq![rest[0]] + r[0]));
            let ghost before = cur@;
            push_char(&mut cur, cs[i]);
            assert(rest[0] == cs@[i as int]);
            i = i + 1;
            assert(rest.drop_first() =~= s@.skip(i as int));
            assert(before + (seq![rest[0]] + r[0]) =~= cur@ + r[0]);
            assert(r.update(0, seq![rest[0]] + r[0]).drop_first() =~= r.drop_first());
            assert(glue(done.deep_view(), before, r.update(0, seq![rest[0]] + r[0])) =~= glue(
                done.deep_view(),
                cur@,
                r,
            ));
        }
    }
    assert(s@.skip(i as int) =~= Seq::<char>::empty());
    let ghost before = done.deep_view();
    let piece = cur;
    done.push(piece);
    assert(done.deep_view() =~= before.push(piece@));
    assert(glue(before, piece@, seq![Seq::<char>::empty()]) =~= done.deep_view());
    done
}

/// The text split by the splitter, both without their line end, with the pieces joined by `|`.
pub fn split_by_string(input_text: &str, splitter_string: &str) -> (r: String)
    ensures
        r@ == split_by_string_text(input_text@, splitter_string@),
{
    let mut text = String::from_str(input_text);
    trim_newline(&mut text);
    let mut splitter = String::from_str(splitter_string);
    trim_newline(&mut splitter);
    let pieces = split_pieces(text.as_str(), splitter.as_str());
    join_strings(&pieces, "|")
}

} // verus!

verus! {

/// The options of the text tool's menu.
pub enum MenuOption {
    RemoveCharacter,
    AllToUppercase,
    CharChangeCase,
    SplitByString,
}

/// The menu option that a number selects: 1 to 4, in the order of the menu.
pub fn menu_option(opt: i32) -> (r: Option<MenuOption>)
    ensures
        r == (if opt == 1 {
            Some(MenuOption::RemoveCharacter)
        } else if opt == 2 {
            Some(MenuOption::AllToUppercase)
        } else if opt == 3 {
            Some(MenuOption::CharChangeCase)
        } else if opt == 4 {
            Some(MenuOption::SplitByString)
        } else {
            None
        }),
{
    match opt {
        1 => Some(MenuOption::RemoveCharacter),
        2 => Some(MenuOption::AllToUppercase),
        3 => Some(MenuOption::CharChangeCase),
        4 => Some(MenuOption::SplitByString),
        _ => None,
    }
}

/// What a line typed at a two-way question amounts to.
pub enum Choice {
    /// The first non-blank character is one of the two offered.
    Chosen(char),
    /// The first non-blank character is neither of the two offered.
    Invalid(char),
    /// The line holds only white space.
    Blank,
}

/// Reads a line typed at a question that offers `char1` or `char2`.
pub fn get_choice(line: &str, char1: char, char2: char) -> (r: Choice)
    ensures
        r == (if trimmed(line@).len() == 0 {
            Choice::Blank
        } else if trimmed(line@)[0] == char1 {
            Choice::Chosen(char1)
        } else if trimmed(line@)[0] == char2 {
            Choice::Chosen(char2)
        } else {
            Choice::Invalid(trimmed(line@)[0])
        }),
{
    let t = trim(line);
    if t.as_str().unicode_len() == 0 {
        Choice::Blank
    } else {
        let c = t.as_str().get_char(0);
        if c == char1 {
            Choice::Chosen(char1)
        } else if c == char2 {
            Choice::Chosen(char2)
        } else {
            Choice::Invalid(c)
        }
    }
}

pub open spec fn is_digit(c: char) -> bool {
    '0' <= c && c <= '9'
}

/// The number that a string of decimal digits writes.
pub open spec fn digits_value(d: Seq<char>) -> int
    decreases d.len(),
{
    if d.len() == 0 {
        0
    } else {
        digits_value(d.drop_last()) * 10 + ((d.last() as int) - ('0' as int))
    }
}

/// Every character is a decimal digit.
pub open spec fn all_digits(d: Seq<char>) -> bool {
    forall|i: int| 0 <= i < d.len() ==> is_digit(#[trigger] d[i])
}

/// What `str::parse::<i32>` gives: an optional `+` or `-` and one or more decimal digits,
/// whose value fits in an `i32`; `None` for anything else.
pub open spec fn parsed_i32(s: Seq<char>) -> Option<i32> {
    let signed = s.len() > 0 && (s[0] == '-' || s[0] == '+');
    let d = if signed {
        s.drop_first()
    } else {
        s
    };
    let v = if signed && s[0] == '-' {
        -digits_value(d)
    } else {
        digits_value(d)
    };
    if d.len() == 0 || !all_digits(d) {
        None
    } else if i32::MIN <= v <= i32::MAX {
        Some(v as i32)
    } else {
        None
    }
}

proof fn lemma_digits_value_grows(d: Seq<char>, k: int)
    requires
        0 <= k <= d.len(),
        all_digits(d),
    ensures
        0 <= digits_value(d.take(k)) <= digits_value(d),
    decreases d.len(),
{
    if k == d.len() {
        assert(d.take(k) =~= d);
        if d.len() > 0 {
            lemma_digits_value_grows(d.drop_last(), d.len() - 1);
            assert(d.drop_last().take(d.len() - 1) =~= d.drop_last());
            assert(is_digit(d[d.len() - 1]));
        }
    } else {
        let e = d.drop_last();
        assert forall|i: int| 0 <= i < e.len() implies is_digit(#[trigger] e[i]) by {
            assert(e[i] == d[i]);
        }
        lemma_digits_value_grows(e, k);
        lemma_digits_value_grows(e, e.len() as int);
        assert(e.take(e.len() as int) =~= e);
        assert(e.take(k) =~= d.take(k));
        assert(is_digit(d[d.len() - 1]));
    }
}

/// The value of the characters from `start` on, when they are all decimal digits and the
/// value is at most 2^31.
fn digits_from(cs: &Vec<char>, start: usize) -> (r: Option<i64>)
    requires
        start <= cs.len(),
    ensures
        r is Some <==> (all_digits(cs@.skip(start as int)) && digits_value(cs@.skip(start as int))
            <= 0x8000_0000),
        r matches Some(v) ==> v == digits_value(cs@.skip(start as int)),
{
    let ghost d = cs@.skip(start as int);
    let n = cs.len();
    let mut acc: i64 = 0;
    let mut i: usize = start;
    assert(d.take(0) =~= Seq::<char>::empty());
    while i < n
        invariant
            n == cs.len(),
            start <= i <= n,
            d == cs@.skip(start as int),
            forall|k: int| 0 <= k < i - start ==> is_digit(#[trigger] d[k]),
            acc == digits_value(d.take(i - start)),
            0 <= acc <= 0x8000_0000,
        decreases n - i,
    {
        let c = cs[i];
        assert(d[i - start] == c);
        if !('0' <= c && c <= '9') {
            assert(!is_digit(d[i - start]));
            return None;
        }
        let digit = (c as u32 - '0' as u32) as i64;
        assert(d.take(i - start + 1).drop_last() =~= d.take(i - start));
        acc = acc * 10 + digit;
        i = i + 1;
        if acc > 0x8000_0000 {
            proof {
                if all_digits(d) {
                    lemma_digits_value_grows(d, i - start);
                }
            }
            return None;
        }
    }
    assert(d.take(i - start) =~= d);
    Some(acc)
}

/// Reads a whole string as an `i32`, as `str::parse::<i32>` does.
pub fn parse_i32(s: &str) -> (r: Option<i32>)
    ensures
        r == parsed_i32(s@),
{
    let cs = chars_of(s);
    let n = cs.len();
    let signed = n > 0 && (cs[0] == '-' || cs[0] == '+');
    let start: usize = if signed { 1 } else { 0 };
    assert(cs@.skip(start as int) =~= (if signed { s@.drop_first() } else { s@ }));
    if start == n {
        return None;
    }
    match digits_from(&cs, start) {
        None => None,
        Some(v) => {
            proof {
                lemma_digits_value_grows(cs@.skip(start as int), 0);
            }
            if signed && cs[0] == '-' {
                Some((0 - v) as i32)
            } else if v <= 0x7fff_ffff {
                Some(v as i32)
            } else {
                None
            }
        },
    }
}

/// The number typed on a line, read after trimming white space.
pub fn parse_option(line: &str) -> (r: Option<i32>)
    ensures
        r == parsed_i32(trimmed(line@)),
{
    let t = trim(line);
    parse_i32(t.as_str())
}

} // verus!
