//! Text as sequences of characters: reading numbers and cutting a line into
//! its fields.

use vstd::prelude::*;

verus! {

/// The characters of `s`.
pub fn to_chars(s: &str) -> (out: Vec<char>)
    ensures
        out@ == s@,
{
    let mut out: Vec<char> = Vec::new();
    for c in it: s.chars()
        invariant
            it.seq() == s@,
            out@ == it.seq().take(it.index() as int),
    {
        out.push(c);
        assert(it.seq().take(it.index() + 1) =~= it.seq().take(it.index() as int).push(c));
    }
    assert(s@.take(s@.len() as int) =~= s@);
    out
}

/// The characters of `chars` from `from` up to `to`, as a vector of their
/// own.
pub fn slice_of(chars: &Vec<char>, from: usize, to: usize) -> (out: Vec<char>)
    requires
        from <= to <= chars@.len(),
    ensures
        out@ == chars@.subrange(from as int, to as int),
{
    let mut out: Vec<char> = Vec::new();
    let mut k: usize = from;
    while k < to
        invariant
            from <= k <= to <= chars@.len(),
            out@ == chars@.subrange(from as int, k as int),
        decreases to - k,
    {
        out.push(chars[k]);
        assert(chars@.subrange(from as int, k + 1) =~= chars@.subrange(from as int, k as int).push(
            chars@[k as int],
        ));
        k += 1;
    }
    out
}

/// Whether two vectors hold the same characters.
pub fn same_chars(a: &Vec<char>, b: &Vec<char>) -> (same: bool)
    ensures
        same == (a@ == b@),
{
    if a.len() != b.len() {
        return false;
    }
    let mut k: usize = 0;
    while k < a.len()
        invariant
            k <= a@.len(),
            a@.len() == b@.len(),
            forall|j: int| 0 <= j < k ==> a@[j] == b@[j],
        decreases a@.len() - k,
    {
        if a[k] != b[k] {
            return false;
        }
        k += 1;
    }
    assert(a@ =~= b@);
    true
}

/// The value of `c` as a digit in base `radix`, which is ten or sixteen.
pub open spec fn digit_value(c: char, radix: nat) -> Option<nat> {
    if '0' <= c <= '9' {
        Some((c as nat - '0' as nat) as nat)
    } else if radix == 16 && 'a' <= c <= 'f' {
        Some((c as nat - 'a' as nat + 10) as nat)
    } else if radix == 16 && 'A' <= c <= 'F' {
        Some((c as nat - 'A' as nat + 10) as nat)
    } else {
        None
    }
}

/// Whether every character of `s` is a digit in base `radix`.
pub open spec fn all_digits(s: Seq<char>, radix: nat) -> bool {
    forall|i: int| 0 <= i < s.len() ==> (#[trigger] digit_value(s[i], radix)) is Some
}

/// The number that the digits of `s` write in base `radix`.
pub open spec fn number_written(s: Seq<char>, radix: nat) -> nat
    decreases s.len(),
{
    if s.len() == 0 {
        0
    } else {
        number_written(s.drop_last(), radix) * radix + match digit_value(s.last(), radix) {
            Some(d) => d,
            None => 0,
        }
    }
}

/// The number that `s` writes without a sign: one or more digits of base
/// `radix`, with an optional `'+'` in front, and a value of at most
/// `limit`.
pub open spec fn unsigned_of(s: Seq<char>, radix: nat, limit: nat) -> Option<nat> {
    let body = if s.len() > 0 && s[0] == '+' {
        s.skip(1)
    } else {
        s
    };
    if body.len() > 0 && all_digits(body, radix) && number_written(body, radix) <= limit {
        Some(number_written(body, radix))
    } else {
        None
    }
}

/// The number that `s` writes with an optional sign: one or more decimal
/// digits, with an optional `'+'` or `'-'` in front, and a value between
/// `lowest` and `highest`.
pub open spec fn signed_of(s: Seq<char>, lowest: int, highest: int) -> Option<int> {
    let negative = s.len() > 0 && s[0] == '-';
    let body = if s.len() > 0 && (s[0] == '+' || s[0] == '-') {
        s.skip(1)
    } else {
        s
    };
    let value = if negative {
        -(number_written(body, 10) as int)
    } else {
        number_written(body, 10) as int
    };
    if body.len() > 0 && all_digits(body, 10) && lowest <= value <= highest {
        Some(value)
    } else {
        None
    }
}

/// A longer run of digits writes a number that is at least as large.
pub proof fn lemma_number_grows(s: Seq<char>, radix: nat, n: int)
    requires
        0 <= n <= s.len(),
        radix >= 1,
    ensures
        number_written(s.take(n), radix) <= number_written(s, radix),
    decreases s.len() - n,
{
    if n == s.len() {
        assert(s.take(n) =~= s);
    } else {
        lemma_number_grows(s.drop_last(), radix, n);
        assert(s.drop_last().take(n) =~= s.take(n));
        let shorter = number_written(s.drop_last(), radix);
        assert(shorter <= shorter * radix) by (nonlinear_arith)
            requires
                radix >= 1,
                shorter >= 0,
        ;
    }
}

/// The value of `c` as a digit in base ten or sixteen.
pub fn digit_in(c: char, hex: bool) -> (out: Option<u64>)
    ensures
        out is Some <==> digit_value(c, if hex { 16 } else { 10 }) is Some,
        out matches Some(d) ==> digit_value(c, if hex { 16 } else { 10 }) == Some(d as nat)
            && d < 16 && (!hex ==> d < 10),
{
    if c >= '0' && c <= '9' {
        Some((c as u32 - '0' as u32) as u64)
    } else if hex && c >= 'a' && c <= 'f' {
        Some((c as u32 - 'a' as u32 + 10) as u64)
    } else if hex && c >= 'A' && c <= 'F' {
        Some((c as u32 - 'A' as u32 + 10) as u64)
    } else {
        None
    }
}

/// Reads the digits of `chars` from `from` on as a number of at most
/// `limit`; `None` when there is no digit, a character is no digit, or the
/// number is above `limit`.
fn read_digits(chars: &Vec<char>, from: usize, hex: bool, limit: u64) -> (out: Option<u64>)
    requires
        from <= chars@.len(),
    ensures
        ({
            let radix: nat = if hex { 16 } else { 10 };
            let body = chars@.skip(from as int);
            let fits = body.len() > 0 && all_digits(body, radix) && number_written(body, radix)
                <= limit;
            &&& out is Some <==> fits
            &&& out matches Some(v) ==> v == number_written(body, radix)
        }),
{
    let ghost radix: nat = if hex { 16 } else { 10 };
    let ghost body = chars@.skip(from as int);
    let base: u64 = if hex { 16 } else { 10 };
    if from == chars.len() {
        return None;
    }
    let mut value: u64 = 0;
    let mut k: usize = from;
    while k < chars.len()
        invariant
            from <= k <= chars@.len(),
            radix == (if hex { 16nat } else { 10nat }),
            base == radix,
            body == chars@.skip(from as int),
            all_digits(body.take(k - from), radix),
            value == number_written(body.take(k - from), radix),
            value <= limit,
        decreases chars@.len() - k,
    {
        let ghost seen = body.take(k - from);
        let ghost more = body.take(k - from + 1);
        proof {
            assert(more.drop_last() =~= seen);
            assert(more.last() == chars@[k as int]);
        }
        let d = match digit_in(chars[k], hex) {
            Some(d) => d,
            None => {
                assert(digit_value(body[k - from], radix) is None);
                return None;
            },
        };
        let next = match value.checked_mul(base) {
            Some(scaled) => scaled.checked_add(d),
            None => None,
        };
        proof {
            assert(number_written(more, radix) == value * radix + d);
            lemma_number_grows(body, radix, k - from + 1);
            assert forall|i: int| 0 <= i < more.len() implies (#[trigger] digit_value(
                more[i],
                radix,
            )) is Some by {
                if i < seen.len() {
                    assert(digit_value(seen[i], radix) is Some);
                }
            }
        }
        match next {
            Some(v) => {
                if v > limit {
                    return None;
                }
                value = v;
            },
            None => {
                return None;
            },
        }
        k += 1;
    }
    proof {
        assert(body.take(k - from) =~= body);
    }
    Some(value)
}

/// Reads `chars` as an unsigned decimal number of at most `limit`.
pub fn parse_unsigned(chars: &Vec<char>, limit: u64) -> (out: Option<u64>)
    ensures
        out is Some <==> unsigned_of(chars@, 10, limit as nat) is Some,
        out matches Some(v) ==> unsigned_of(chars@, 10, limit as nat) == Some(v as nat),
{
    let from: usize = if chars.len() > 0 && chars[0] == '+' {
        1
    } else {
        0
    };
    proof {
        assert(chars@.skip(0) =~= chars@);
    }
    read_digits(chars, from, false, limit)
}

/// Reads `chars` as an unsigned hexadecimal number of at most `limit`.
pub fn parse_hex(chars: &Vec<char>, limit: u64) -> (out: Option<u64>)
    ensures
        out is Some <==> unsigned_of(chars@, 16, limit as nat) is Some,
        out matches Some(v) ==> unsigned_of(chars@, 16, limit as nat) == Some(v as nat),
{
    let from: usize = if chars.len() > 0 && chars[0] == '+' {
        1
    } else {
        0
    };
    proof {
        assert(chars@.skip(0) =~= chars@);
    }
    read_digits(chars, from, true, limit)
}

/// Reads `chars` as a decimal number between `lowest` and `highest`, with
/// an optional sign in front.
pub fn parse_signed(chars: &Vec<char>, lowest: i64, highest: i64) -> (out: Option<i64>)
    requires
        lowest <= 0 <= highest,
        lowest > i64::MIN,
    ensures
        out is Some <==> signed_of(chars@, lowest as int, highest as int) is Some,
        out matches Some(v) ==> signed_of(chars@, lowest as int, highest as int) == Some(v as int),
{
    let negative = chars.len() > 0 && chars[0] == '-';
    let from: usize = if chars.len() > 0 && (chars[0] == '+' || chars[0] == '-') {
        1
    } else {
        0
    };
    proof {
        assert(chars@.skip(0) =~= chars@);
    }
    if negative {
        match read_digits(chars, from, false, (-lowest) as u64) {
            Some(v) => Some(-(v as i64)),
            None => None,
        }
    } else {
        match read_digits(chars, from, false, highest as u64) {
            Some(v) => Some(v as i64),
            None => None,
        }
    }
}

/// Whether `pattern` stands in `text` at index `i`.
pub open spec fn occurs_at(text: Seq<char>, pattern: Seq<char>, i: int) -> bool {
    0 <= i && i + pattern.len() <= text.len() && text.subrange(i, i + pattern.len()) == pattern
}

/// The first index at or after `from` at which `pattern` stands in `text`.
pub open spec fn first_from(text: Seq<char>, pattern: Seq<char>, from: int) -> Option<int>
    decreases text.len() - from,
{
    if from < 0 || from + pattern.len() > text.len() {
        None
    } else if occurs_at(text, pattern, from) {
        Some(from)
    } else if from >= text.len() {
        None
    } else {
        first_from(text, pattern, from + 1)
    }
}

/// What `first_from` finds is an occurrence at or after `from`, and no
/// occurrence lies between `from` and it.
pub proof fn lemma_first_from(text: Seq<char>, pattern: Seq<char>, from: int)
    requires
        0 <= from,
    ensures
        first_from(text, pattern, from) matches Some(i) ==> from <= i && occurs_at(
            text,
            pattern,
            i,
        ) && forall|j: int| from <= j < i ==> !occurs_at(text, pattern, j),
        first_from(text, pattern, from) is None ==> forall|j: int|
            from <= j ==> !occurs_at(text, pattern, j),
    decreases text.len() - from,
{
    if from + pattern.len() <= text.len() && !occurs_at(text, pattern, from) {
        if from < text.len() {
            lemma_first_from(text, pattern, from + 1);
        } else {
            assert(text.subrange(from, from + pattern.len()) =~= pattern);
        }
    }
}

/// Whether `pattern` stands in `text` at index `i`.
pub fn stands_at(text: &Vec<char>, pattern: &Vec<char>, i: usize) -> (found: bool)
    ensures
        found == occurs_at(text@, pattern@, i as int),
{
    if pattern.len() > text.len() || i > text.len() - pattern.len() {
        return false;
    }
    let mut k: usize = 0;
    while k < pattern.len()
        invariant
            k <= pattern@.len(),
            i + pattern.len() <= text.len(),
            forall|j: int| 0 <= j < k ==> text@[i + j] == pattern@[j],
        decreases pattern@.len() - k,
    {
        if text[i + k] != pattern[k] {
            assert(text@.subrange(i as int, i + pattern@.len())[k as int] != pattern@[k as int]);
            return false;
        }
        k += 1;
    }
    assert(text@.subrange(i as int, i + pattern@.len()) =~= pattern@);
    true
}

/// The first index at or after `from` at which `pattern` stands in `text`.
pub fn find_from(text: &Vec<char>, pattern: &Vec<char>, from: usize) -> (out: Option<usize>)
    requires
        pattern@.len() > 0,
    ensures
        out is Some <==> first_from(text@, pattern@, from as int) is Some,
        out matches Some(i) ==> first_from(text@, pattern@, from as int) == Some(i as int),
{
    let mut i: usize = from;
    while i < text.len() && pattern.len() <= text.len() - i
        invariant
            from <= i,
            pattern@.len() > 0,
            first_from(text@, pattern@, from as int) == first_from(text@, pattern@, i as int),
        decreases text@.len() + 1 - i,
    {
        if stands_at(text, pattern, i) {
            return Some(i);
        }
        i += 1;
    }
    None
}

/// The pieces that `sep` cuts the part of `text` from `from` on into. The
/// separator is looked for from the left; a piece may be empty.
pub open spec fn pieces_from(text: Seq<char>, sep: Seq<char>, from: int) -> Seq<Seq<char>>
    decreases text.len() - from,
{
    if sep.len() == 0 || from < 0 || from > text.len() {
        Seq::empty()
    } else {
        match first_from(text, sep, from) {
            Some(i) => {
                if from <= i && i + sep.len() <= text.len() {
                    seq![text.subrange(from, i)] + pieces_from(text, sep, i + sep.len())
                } else {
                    Seq::empty()
                }
            },
            None => seq![text.subrange(from, text.len() as int)],
        }
    }
}

/// The pieces that `sep` cuts `text` into.
pub open spec fn pieces(text: Seq<char>, sep: Seq<char>) -> Seq<Seq<char>> {
    pieces_from(text, sep, 0)
}

/// The views of a vector of character vectors.
pub open spec fn views(items: Seq<Vec<char>>) -> Seq<Seq<char>> {
    items.map_values(|item: Vec<char>| item@)
}

/// Cuts `text` at every occurrence of `sep`.
pub fn split_on(text: &Vec<char>, sep: &Vec<char>) -> (out: Vec<Vec<char>>)
    requires
        sep@.len() > 0,
    ensures
        views(out@) == pieces(text@, sep@),
{
    let mut out: Vec<Vec<char>> = Vec::new();
    let mut from: usize = 0;
    loop
        invariant_except_break
            pieces(text@, sep@) == views(out@) + pieces_from(text@, sep@, from as int),
        invariant
            sep@.len() > 0,
            from <= text@.len(),
        ensures
            views(out@) == pieces(text@, sep@),
        decreases text@.len() - from,
    {
        let ghost before = views(out@);
        proof {
            lemma_first_from(text@, sep@, from as int);
        }
        match find_from(text, sep, from) {
            Some(i) => {
                assert(occurs_at(text@, sep@, i as int));
                assert(i + sep.len() <= text.len());
                let piece = slice_of(text, from, i);
                out.push(piece);
                proof {
                    assert(views(out@) =~= before + seq![text@.subrange(from as int, i as int)]);
                    assert(pieces(text@, sep@) =~= views(out@) + pieces_from(
                        text@,
                        sep@,
                        i + sep@.len(),
                    ));
                }
                from = i + sep.len();
            },
            None => {
                let piece = slice_of(text, from, text.len());
                out.push(piece);
                proof {
                    assert(views(out@) =~= before + seq![
                        text@.subrange(from as int, text@.len() as int),
                    ]);
                }
                break ;
            },
        }
    }
    out
}

/// Whether `c` is white space.
pub open spec fn is_space(c: char) -> bool {
    ||| c == ' '
    ||| '\u{9}' <= c <= '\u{d}'
    ||| c == '\u{85}'
    ||| c == '\u{a0}'
    ||| c == '\u{1680}'
    ||| '\u{2000}' <= c <= '\u{200a}'
    ||| c == '\u{2028}'
    ||| c == '\u{2029}'
    ||| c == '\u{202f}'
    ||| c == '\u{205f}'
    ||| c == '\u{3000}'
}

/// Whether `c` is white space.
pub fn space(c: char) -> (out: bool)
    ensures
        out == is_space(c),
{
    c == ' ' || (c >= '\u{9}' && c <= '\u{d}') || c == '\u{85}' || c == '\u{a0}' || c
        == '\u{1680}' || (c >= '\u{2000}' && c <= '\u{200a}') || c == '\u{2028}' || c
        == '\u{2029}' || c == '\u{202f}' || c == '\u{205f}' || c == '\u{3000}'
}

/// The first index at or after `from` whose character is white space, if
/// `spaces` is true, or is not, if `spaces` is false; the length of `text`
/// when there is none.
pub open spec fn next_where(text: Seq<char>, from: int, spaces: bool) -> int
    decreases text.len() - from,
{
    if from < 0 || from >= text.len() {
        text.len() as int
    } else if is_space(text[from]) == spaces {
        from
    } else {
        next_where(text, from + 1, spaces)
    }
}

/// `next_where` stays between `from` and the length of the text.
pub proof fn lemma_next_where(text: Seq<char>, from: int, spaces: bool)
    requires
        0 <= from <= text.len(),
    ensures
        from <= next_where(text, from, spaces) <= text.len(),
        next_where(text, from, spaces) < text.len() ==> is_space(
            text[next_where(text, from, spaces)],
        ) == spaces,
    decreases text.len() - from,
{
    if from < text.len() && is_space(text[from]) != spaces {
        lemma_next_where(text, from + 1, spaces);
    }
}

/// The words of the part of `text` from `from` on: the longest runs of
/// characters that are not white space.
pub open spec fn words_from(text: Seq<char>, from: int) -> Seq<Seq<char>>
    decreases text.len() - from,
{
    let begin = next_where(text, from, false);
    let end = next_where(text, begin, true);
    if from < 0 || begin < from || begin >= text.len() || end <= begin || end > text.len() {
        Seq::empty()
    } else {
        seq![text.subrange(begin, end)] + words_from(text, end)
    }
}

/// The words of `text`.
pub open spec fn words(text: Seq<char>) -> Seq<Seq<char>> {
    words_from(text, 0)
}

/// The first index at or after `from` whose character is, or is not, white
/// space.
pub fn skip_to(text: &Vec<char>, from: usize, spaces: bool) -> (out: usize)
    requires
        from <= text@.len(),
    ensures
        out == next_where(text@, from as int, spaces),
        from <= out <= text@.len(),
{
    let mut i: usize = from;
    while i < text.len() && space(text[i]) != spaces
        invariant
            from <= i <= text@.len(),
            next_where(text@, from as int, spaces) == next_where(text@, i as int, spaces),
        decreases text@.len() - i,
    {
        i += 1;
    }
    i
}

/// Cuts `text` into its words.
pub fn split_whitespace(text: &Vec<char>) -> (out: Vec<Vec<char>>)
    ensures
        views(out@) == words(text@),
{
    let mut out: Vec<Vec<char>> = Vec::new();
    let mut from: usize = 0;
    loop
        invariant_except_break
            words(text@) == views(out@) + words_from(text@, from as int),
        invariant
            from <= text@.len(),
        ensures
            views(out@) == words(text@),
        decreases text@.len() - from,
    {
        let ghost before = views(out@);
        let begin = skip_to(text, from, false);
        if begin >= text.len() {
            assert(views(out@) + Seq::<Seq<char>>::empty() =~= views(out@));
            break ;
        }
        let end = skip_to(text, begin, true);
        proof {
            lemma_next_where(text@, begin as int, true);
            assert(!is_space(text@[begin as int])) by {
                lemma_next_where(text@, from as int, false);
            }
            assert(end > begin);
        }
        let word = slice_of(text, begin, end);
        out.push(word);
        proof {
            assert(views(out@) =~= before + seq![text@.subrange(begin as int, end as int)]);
            assert(words(text@) =~= views(out@) + words_from(text@, end as int));
        }
        from = end;
    }
    out
}

/// The numbers that the words of `text` write, or `None` when a word is no
/// number of at most `limit`.
pub open spec fn numbers_of(text: Seq<char>, limit: nat) -> Option<Seq<u64>> {
    if forall|i: int|
        0 <= i < words(text).len() ==> unsigned_of(#[trigger] words(text)[i], 10, limit) is Some {
        Some(Seq::new(words(text).len(), |i: int| unsigned_of(words(text)[i], 10, limit)->0 as u64))
    } else {
        None
    }
}

/// Reads the numbers that `text` lists between white space.
pub fn read_numbers(text: &Vec<char>, limit: u64) -> (out: Option<Vec<u64>>)
    ensures
        out is Some <==> numbers_of(text@, limit as nat) is Some,
        out matches Some(list) ==> numbers_of(text@, limit as nat) == Some(list@) && forall|
            i: int,
        | 0 <= i < list@.len() ==> #[trigger] list@[i] <= limit,
{
    let parts = split_whitespace(text);
    let mut list: Vec<u64> = Vec::new();
    let mut k: usize = 0;
    while k < parts.len()
        invariant
            k <= parts@.len(),
            views(parts@) == words(text@),
            list@.len() == k,
            forall|i: int|
                0 <= i < k ==> unsigned_of(#[trigger] words(text@)[i], 10, limit as nat) == Some(
                    list@[i] as nat,
                ),
            forall|i: int| 0 <= i < k ==> #[trigger] list@[i] <= limit,
        decreases parts@.len() - k,
    {
        proof {
            assert(views(parts@)[k as int] == parts@[k as int]@);
        }
        match parse_unsigned(&parts[k], limit) {
            Some(v) => {
                list.push(v);
            },
            None => {
                return None;
            },
        }
        k += 1;
    }
    proof {
        assert(views(parts@).len() == parts@.len());
        assert(list@ =~= numbers_of(text@, limit as nat)->0);
    }
    Some(list)
}

/// The index just after the last `mark` among the first `n` characters of
/// `text`, or zero when there is none.
pub open spec fn after_last(text: Seq<char>, mark: char, n: int) -> int
    decreases n,
{
    if n <= 0 {
        0
    } else if text[n - 1] == mark {
        n
    } else {
        after_last(text, mark, n - 1)
    }
}

/// `after_last` stays between zero and `n`.
pub proof fn lemma_after_last(text: Seq<char>, mark: char, n: int)
    requires
        0 <= n,
    ensures
        0 <= after_last(text, mark, n) <= n,
    decreases n,
{
    if n > 0 && text[n - 1] != mark {
        lemma_after_last(text, mark, n - 1);
    }
}

/// The part of `text` after its last `mark`, or all of it when there is
/// none.
pub fn tail_after(text: &Vec<char>, mark: char) -> (out: Vec<char>)
    ensures
        out@ == text@.subrange(
            after_last(text@, mark, text@.len() as int),
            text@.len() as int,
        ),
{
    let mut k: usize = text.len();
    while k > 0 && text[k - 1] != mark
        invariant
            k <= text@.len(),
            after_last(text@, mark, text@.len() as int) == after_last(text@, mark, k as int),
        decreases k,
    {
        k -= 1;
    }
    slice_of(text, k, text.len())
}

/// The index of the first `mark` at or after `from`, or the length of
/// `text` when there is none.
pub open spec fn mark_from(text: Seq<char>, mark: char, from: int) -> int
    decreases text.len() - from,
{
    if from < 0 || from >= text.len() {
        text.len() as int
    } else if text[from] == mark {
        from
    } else {
        mark_from(text, mark, from + 1)
    }
}

/// The index of the first `mark` at or after `from`.
pub fn find_mark(text: &Vec<char>, mark: char, from: usize) -> (out: usize)
    requires
        from <= text@.len(),
    ensures
        out == mark_from(text@, mark, from as int),
        from <= out <= text@.len(),
{
    let mut k: usize = from;
    while k < text.len() && text[k] != mark
        invariant
            from <= k <= text@.len(),
            mark_from(text@, mark, from as int) == mark_from(text@, mark, k as int),
        decreases text@.len() - k,
    {
        k += 1;
    }
    k
}

/// The second of the fields that `mark` cuts `text` into: what stands
/// between the first `mark` and the next, or the end.
pub open spec fn second_of(text: Seq<char>, mark: char) -> Option<Seq<char>> {
    let first = mark_from(text, mark, 0);
    if first >= text.len() {
        None
    } else {
        Some(text.subrange(first + 1, mark_from(text, mark, first + 1)))
    }
}

/// The second of the fields that `mark` cuts `text` into, or `None` when
/// `text` holds no `mark`.
pub fn second_field(text: &Vec<char>, mark: char) -> (out: Option<Vec<char>>)
    ensures
        out is Some <==> second_of(text@, mark) is Some,
        out matches Some(field) ==> second_of(text@, mark) == Some(field@),
{
    let first = find_mark(text, mark, 0);
    if first >= text.len() {
        return None;
    }
    let next = find_mark(text, mark, first + 1);
    Some(slice_of(text, first + 1, next))
}

/// The first `n` of `parts`, one after the other.
pub open spec fn joined(parts: Seq<Seq<char>>, n: int) -> Seq<char>
    decreases n,
{
    if n <= 0 {
        Seq::empty()
    } else {
        joined(parts, n - 1) + parts[n - 1]
    }
}

/// The `parts`, one after the other.
pub fn join_all(parts: &Vec<Vec<char>>) -> (out: Vec<char>)
    ensures
        out@ == joined(views(parts@), parts@.len() as int),
{
    let mut out: Vec<char> = Vec::new();
    let mut i: usize = 0;
    while i < parts.len()
        invariant
            i <= parts@.len(),
            out@ == joined(views(parts@), i as int),
        decreases parts@.len() - i,
    {
        let part = &parts[i];
        let ghost before = out@;
        let mut j: usize = 0;
        while j < part.len()
            invariant
                j <= part@.len(),
                out@ == before + part@.take(j as int),
            decreases part@.len() - j,
        {
            out.push(part[j]);
            assert(part@.take(j + 1) =~= part@.take(j as int).push(part@[j as int]));
            assert(out@ =~= before + part@.take(j + 1));
            j += 1;
        }
        proof {
            assert(part@.take(j as int) =~= part@);
            assert(views(parts@)[i as int] == part@);
        }
        i += 1;
    }
    out
}

/// The text that holds the characters of `chars`.
pub fn to_text(chars: &Vec<char>) -> (out: String)
    ensures
        out@ == chars@,
{
    let mut out = String::new();
    let mut k: usize = 0;
    while k < chars.len()
        invariant
            k <= chars@.len(),
            out@ == chars@.take(k as int),
        decreases chars@.len() - k,
    {
        out.push(chars[k]);
        assert(chars@.take(k + 1) =~= chars@.take(k as int).push(chars@[k as int]));
        k += 1;
    }
    assert(chars@.take(k as int) =~= chars@);
    out
}

/// `piece` without a carriage return at its end.
pub open spec fn without_return(piece: Seq<char>) -> Seq<char> {
    if piece.len() > 0 && piece.last() == '\r' {
        piece.drop_last()
    } else {
        piece
    }
}

/// The lines of `text`: what the line feeds cut it into, each line that a
/// line feed ends without the carriage return before it, and without an
/// empty line after the last line feed.
pub open spec fn lines_of(text: Seq<char>) -> Seq<Seq<char>> {
    let cut = pieces(text, seq!['\n']);
    let count = if cut.len() > 0 && cut.last().len() == 0 {
        cut.len() - 1
    } else {
        cut.len() as int
    };
    Seq::new(
        count as nat,
        |i: int|
            if i < cut.len() - 1 {
                without_return(cut[i])
            } else {
                cut[i]
            },
    )
}

/// Cuts `text` into its lines.
pub fn split_lines(text: &Vec<char>) -> (out: Vec<Vec<char>>)
    ensures
        views(out@) == lines_of(text@),
{
    let mut feed: Vec<char> = Vec::new();
    feed.push('\n');
    assert(feed@ =~= seq!['\n']);
    let cut = split_on(text, &feed);
    let ghost whole = views(cut@);
    let count: usize = if cut.len() > 0 && cut[cut.len() - 1].len() == 0 {
        cut.len() - 1
    } else {
        cut.len()
    };
    proof {
        if cut@.len() > 0 {
            assert(whole.last() == cut@[cut@.len() - 1]@);
        }
    }
    let mut out: Vec<Vec<char>> = Vec::new();
    let mut k: usize = 0;
    while k < count
        invariant
            k <= count <= cut@.len(),
            whole == views(cut@),
            out@.len() == k,
            forall|i: int|
                0 <= i < k ==> (#[trigger] out@[i])@ == if i < cut@.len() - 1 {
                    without_return(whole[i])
                } else {
                    whole[i]
                },
        decreases count - k,
    {
        let piece = &cut[k];
        proof {
            assert(whole[k as int] == piece@);
        }
        let line = if k + 1 < cut.len() && piece.len() > 0 && piece[piece.len() - 1] == '\r' {
            slice_of(piece, 0, piece.len() - 1)
        } else {
            slice_of(piece, 0, piece.len())
        };
        proof {
            assert(piece@.subrange(0, piece@.len() as int) =~= piece@);
            assert(piece@.len() > 0 ==> piece@.subrange(0, piece@.len() - 1) =~= piece@.drop_last());
        }
        out.push(line);
        k += 1;
    }
    assert(views(out@) =~= lines_of(text@));
    out
}

} // verus!
