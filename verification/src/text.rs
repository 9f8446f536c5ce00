//! Reading and putting together short texts.

use vstd::prelude::*;
use vstd::string::StrSliceExecFns;
use vstd::string::StringExecFns;

verus! {

/// A character that separates words: one with the Unicode property
/// `White_Space`.
pub open spec fn separates(c: char) -> bool {
    let n = c as u32;
    ||| 0x09 <= n <= 0x0d
    ||| n == 0x20
    ||| n == 0x85
    ||| n == 0xa0
    ||| n == 0x1680
    ||| 0x2000 <= n <= 0x200a
    ||| n == 0x2028
    ||| n == 0x2029
    ||| n == 0x202f
    ||| n == 0x205f
    ||| n == 0x3000
}

/// A text in lower case: what `str::to_lowercase` returns.
pub uninterp spec fn lowercase(s: Seq<char>) -> Seq<char>;

/// Whether a character separates words.
fn is_separator(c: char) -> (r: bool)
    ensures
        r == separates(c),
{
    let n: u32 = c as u32;
    (0x09 <= n && n <= 0x0d) || n == 0x20 || n == 0x85 || n == 0xa0 || n == 0x1680 || (0x2000 <= n
        && n <= 0x200a) || n == 0x2028 || n == 0x2029 || n == 0x202f || n == 0x205f || n == 0x3000
}

/// `str::to_lowercase`, whose answer depends on the text alone and is named
/// [`lowercase`]. Nothing is said of single texts.
#[verifier::external_body]
fn in_lowercase(s: &str) -> (r: String)
    ensures
        r@ == lowercase(s@),
{
    s.to_lowercase()
}

/// The characters of a text.
pub fn characters(s: &str) -> (r: Vec<char>)
    ensures
        r@ == s@,
{
    let n: usize = s.unicode_len();
    let mut r: Vec<char> = Vec::with_capacity(n);
    let mut i: usize = 0;
    while i < n
        invariant
            i <= n,
            n == s@.len(),
            r@ == s@.take(i as int),
        decreases n - i,
    {
        r.push(s.get_char(i));
        i = i + 1;
        assert(s@.take(i as int) =~= s@.take(i - 1).push(s@[i - 1]));
    }
    assert(s@.take(n as int) =~= s@);
    r
}

/// Two texts, one after the other.
pub fn joined(a: &str, b: &str) -> (r: String)
    ensures
        r@ == a@ + b@,
{
    let mut r: String = String::from_str(a);
    r.append(b);
    r
}

/// A text put between two others.
pub fn enclosed(a: &str, b: &str, c: &str) -> (r: String)
    ensures
        r@ == a@ + b@ + c@,
{
    let mut r: String = String::from_str(a);
    r.append(b);
    r.append(c);
    r
}

pub open spec fn is_digit(c: char) -> bool {
    '0' <= c && c <= '9'
}

pub open spec fn all_digits(s: Seq<char>) -> bool {
    s.len() > 0 && forall|i: int| 0 <= i < s.len() ==> is_digit(#[trigger] s[i])
}

/// The number that digits write.
pub open spec fn digits_value(s: Seq<char>) -> nat
    decreases s.len(),
{
    if s.len() == 0 {
        0
    } else {
        (10 * digits_value(s.drop_last()) + (s.last() as u32 - '0' as u32)) as nat
    }
}

/// The count that a text writes: digits, perhaps after a plus sign.
pub open spec fn written_count(s: Seq<char>) -> Option<nat> {
    let body = if s.len() > 0 && s[0] == '+' {
        s.skip(1)
    } else {
        s
    };
    if all_digits(body) {
        Some(digits_value(body))
    } else {
        None
    }
}

proof fn lemma_value_grows(s: Seq<char>, i: int)
    requires
        0 <= i <= s.len(),
        forall|k: int| 0 <= k < s.len() ==> is_digit(#[trigger] s[k]),
    ensures
        digits_value(s.take(i)) <= digits_value(s),
    decreases s.len() - i,
{
    if i < s.len() {
        lemma_value_grows(s, i + 1);
        assert(s.take(i + 1).drop_last() =~= s.take(i));
        assert(is_digit(s[i]));
    } else {
        assert(s.take(i) =~= s);
    }
}

/// Reads a count; `None` where the text writes none or one beyond `usize`.
pub fn parse_count(s: &str) -> (r: Option<usize>)
    ensures
        r == (match written_count(s@) {
            Some(n) => if n <= usize::MAX {
                Some(n as usize)
            } else {
                None
            },
            None => None,
        }),
{
    let all: Vec<char> = characters(s);
    let start: usize = if all.len() > 0 && all[0] == '+' {
        1
    } else {
        0
    };
    let ghost body = s@.skip(start as int);
    assert(start == 0 ==> body =~= s@);
    assert(written_count(s@) == (if all_digits(body) {
        Some(digits_value(body))
    } else {
        None
    }));
    if all.len() == start {
        return None;
    }
    let mut k: usize = start;
    while k < all.len()
        invariant
            start <= k <= all.len(),
            all@ == s@,
            body == s@.skip(start as int),
            written_count(s@) == (if all_digits(body) {
                Some(digits_value(body))
            } else {
                None
            }),
            forall|i: int| 0 <= i < k - start ==> is_digit(#[trigger] body[i]),
        decreases all.len() - k,
    {
        if !('0' <= all[k] && all[k] <= '9') {
            assert(!is_digit(body[k - start]));
            return None;
        }
        k = k + 1;
    }
    let mut value: usize = 0;
    let mut i: usize = start;
    assert(body.take(0) =~= Seq::<char>::empty());
    while i < all.len()
        invariant
            start <= i <= all.len(),
            all@ == s@,
            body == s@.skip(start as int),
            all_digits(body),
            written_count(s@) == Some(digits_value(body)),
            value == digits_value(body.take(i - start)),
        decreases all.len() - i,
    {
        let ghost n = i - start;
        assert(is_digit(body[n]));
        proof {
            lemma_value_grows(body, n + 1);
            assert(body.take(n + 1).drop_last() =~= body.take(n));
        }
        let digit: usize = (all[i] as u32 - '0' as u32) as usize;
        if value > usize::MAX / 10 || 10 * value > usize::MAX - digit {
            return None;
        }
        value = 10 * value + digit;
        i = i + 1;
    }
    assert(body.take(body.len() as int) =~= body);
    Some(value)
}

/// `needle` stands in `hay` at `i`.
pub open spec fn stands_at(hay: Seq<char>, needle: Seq<char>, i: int) -> bool {
    0 <= i && i + needle.len() <= hay.len() && hay.subrange(i, i + needle.len()) == needle
}

/// `needle` stands somewhere in `hay`.
pub open spec fn holds(hay: Seq<char>, needle: Seq<char>) -> bool {
    exists|i: int| stands_at(hay, needle, i)
}

/// Whether `needle` stands somewhere in `hay`.
fn contains(hay: &Vec<char>, needle: &Vec<char>) -> (r: bool)
    ensures
        r == holds(hay@, needle@),
{
    if needle.len() > hay.len() {
        return false;
    }
    let mut i: usize = 0;
    while i <= hay.len() - needle.len()
        invariant
            needle.len() <= hay.len(),
            i <= hay.len() - needle.len() + 1,
            forall|k: int| 0 <= k < i ==> !stands_at(hay@, needle@, k),
        decreases hay.len() - needle.len() + 1 - i,
    {
        let mut j: usize = 0;
        while j < needle.len() && hay[i + j] == needle[j]
            invariant
                j <= needle.len(),
                i + needle.len() <= hay.len(),
                forall|k: int| 0 <= k < j ==> hay@[i + k] == #[trigger] needle@[k],
            decreases needle.len() - j,
        {
            j = j + 1;
        }
        if j == needle.len() {
            assert(hay@.subrange(i as int, i + needle@.len()) =~= needle@);
            assert(stands_at(hay@, needle@, i as int));
            return true;
        }
        assert(!stands_at(hay@, needle@, i as int)) by {
            if stands_at(hay@, needle@, i as int) {
                assert(hay@.subrange(i as int, i + needle@.len())[j as int] == hay@[i + j]);
            }
        }
        i = i + 1;
    }
    assert forall|k: int| !stands_at(hay@, needle@, k) by {
        if 0 <= k && k + needle@.len() <= hay@.len() {
            assert(k < i);
        }
    }
    false
}

/// Whether `needle` stands somewhere in `hay` when case is ignored.
pub fn contains_ignoring_case(hay: &str, needle: &str) -> (r: bool)
    ensures
        r == holds(lowercase(hay@), lowercase(needle@)),
{
    let h: Vec<char> = characters(in_lowercase(hay).as_str());
    let n: Vec<char> = characters(in_lowercase(needle).as_str());
    contains(&h, &n)
}

/// The words of a text: its longest runs without a separator, in order.
pub open spec fn words(s: Seq<char>) -> Seq<Seq<char>>
    decreases s.len(),
{
    if s.len() == 0 {
        Seq::empty()
    } else if separates(s[0]) {
        words(s.skip(1))
    } else {
        let n = run_length(s);
        if n == 0 || n > s.len() {
            Seq::empty()
        } else {
            seq![s.take(n as int)] + words(s.skip(n as int))
        }
    }
}

/// How many characters stand before the first separator.
pub open spec fn run_length(s: Seq<char>) -> nat
    decreases s.len(),
{
    if s.len() == 0 || separates(s[0]) {
        0
    } else {
        1 + run_length(s.skip(1))
    }
}

proof fn lemma_run(s: Seq<char>, n: nat)
    requires
        n <= s.len(),
        forall|k: int| 0 <= k < n ==> !separates(#[trigger] s[k]),
        n == s.len() || separates(s[n as int]),
    ensures
        run_length(s) == n,
    decreases n,
{
    if n > 0 {
        assert(!separates(s[0]));
        let t = s.skip(1);
        assert forall|k: int| 0 <= k < n - 1 implies !separates(#[trigger] t[k]) by {
            assert(t[k] == s[k + 1]);
        }
        if n < s.len() {
            assert(t[n - 1] == s[n as int]);
        }
        lemma_run(t, (n - 1) as nat);
    }
}

/// The words behind their texts.
pub open spec fn texts(v: Seq<String>) -> Seq<Seq<char>> {
    Seq::new(v.len(), |i: int| v[i]@)
}

/// Splits a text into words.
pub fn split_words(s: &str) -> (r: Vec<String>)
    ensures
        texts(r@) == words(s@),
{
    let all: Vec<char> = characters(s);
    let mut r: Vec<String> = Vec::new();
    let mut i: usize = 0;
    assert(s@.skip(0) =~= s@);
    assert(texts(r@) + words(s@) =~= words(s@));
    while i < all.len()
        invariant
            all@ == s@,
            i <= all.len(),
            texts(r@) + words(s@.skip(i as int)) == words(s@),
        decreases all.len() - i,
    {
        let ghost rest = s@.skip(i as int);
        assert(rest[0] == s@[i as int]);
        if is_separator(all[i]) {
            assert(rest.skip(1) =~= s@.skip(i + 1));
            i = i + 1;
        } else {
            let mut end: usize = i + 1;
            while end < all.len() && !is_separator(all[end])
                invariant
                    all@ == s@,
                    i < end <= all.len(),
                    forall|k: int| i <= k < end ==> !separates(#[trigger] s@[k]),
                decreases all.len() - end,
            {
                end = end + 1;
            }
            let word: String = String::from_str(s.substring_char(i, end));
            proof {
                let n = (end - i) as nat;
                assert forall|k: int| 0 <= k < n implies !separates(#[trigger] rest[k]) by {
                    assert(rest[k] == s@[i + k]);
                }
                if end < all.len() {
                    assert(rest[n as int] == s@[end as int]);
                }
                lemma_run(rest, n);
                assert(rest.take(n as int) =~= s@.subrange(i as int, end as int));
                assert(rest.skip(n as int) =~= s@.skip(end as int));
            }
            let ghost before = texts(r@);
            let ghost w = word@;
            r.push(word);
            assert(texts(r@) =~= before + seq![w]);
            assert(texts(r@) + words(s@.skip(end as int)) =~= before + words(rest));
            i = end;
        }
    }
    assert(s@.skip(i as int) =~= Seq::<char>::empty());
    assert(texts(r@) =~= words(s@));
    r
}

/// A text without the separators at its ends.
pub open spec fn trimmed(s: Seq<char>) -> Seq<char>
    decreases s.len(),
{
    if s.len() == 0 {
        s
    } else if separates(s[0]) {
        trimmed(s.skip(1))
    } else if separates(s.last()) {
        trimmed(s.drop_last())
    } else {
        s
    }
}

/// A text without the separators at its ends.
pub fn trim(s: &str) -> (r: String)
    ensures
        r@ == trimmed(s@),
{
    let all: Vec<char> = characters(s);
    let mut low: usize = 0;
    let mut high: usize = all.len();
    assert(s@.subrange(0, s@.len() as int) =~= s@);
    while low < high && is_separator(all[low])
        invariant
            all@ == s@,
            low <= high,
            high == all.len(),
            trimmed(s@.subrange(low as int, high as int)) == trimmed(s@),
        ensures
            low <= high,
            high == all.len(),
            trimmed(s@.subrange(low as int, high as int)) == trimmed(s@),
            low < high ==> !separates(s@[low as int]),
        decreases high - low,
    {
        assert(s@.subrange(low as int, high as int).skip(1) =~= s@.subrange(
            low + 1,
            high as int,
        ));
        low = low + 1;
    }
    while low < high && is_separator(all[high - 1])
        invariant
            all@ == s@,
            low <= high <= all.len(),
            trimmed(s@.subrange(low as int, high as int)) == trimmed(s@),
            low < high ==> !separates(s@[low as int]),
        ensures
            low <= high <= all.len(),
            trimmed(s@.subrange(low as int, high as int)) == trimmed(s@),
            low < high ==> !separates(s@[low as int]) && !separates(s@[high - 1]),
        decreases high - low,
    {
        let ghost t = s@.subrange(low as int, high as int);
        assert(t[0] == s@[low as int] && t.last() == s@[high - 1]);
        assert(t.drop_last() =~= s@.subrange(low as int, high - 1));
        high = high - 1;
    }
    proof {
        let t = s@.subrange(low as int, high as int);
        if t.len() > 0 {
            assert(t[0] == s@[low as int] && t.last() == s@[high - 1]);
        }
    }
    String::from_str(s.substring_char(low, high))
}

/// The character of a digit.
pub open spec fn digit(d: nat) -> char {
    (('0' as u32 + d) as u32) as char
}

/// A number in decimal.
pub open spec fn decimal_text(n: nat) -> Seq<char>
    decreases n,
{
    if n < 10 {
        seq![digit(n)]
    } else {
        decimal_text(n / 10).push(digit(n % 10))
    }
}

fn digit_text(d: u64) -> (r: &'static str)
    requires
        d < 10,
    ensures
        r@ == seq![digit(d as nat)],
{
    proof {
        reveal_strlit("0");
        reveal_strlit("1");
        reveal_strlit("2");
        reveal_strlit("3");
        reveal_strlit("4");
        reveal_strlit("5");
        reveal_strlit("6");
        reveal_strlit("7");
        reveal_strlit("8");
        reveal_strlit("9");
    }
    let r: &'static str = match d {
        0 => "0",
        1 => "1",
        2 => "2",
        3 => "3",
        4 => "4",
        5 => "5",
        6 => "6",
        7 => "7",
        8 => "8",
        _ => "9",
    };
    assert(r@ =~= seq![digit(d as nat)]);
    r
}

/// A number in decimal.
pub fn decimal(n: u64) -> (r: String)
    ensures
        r@ == decimal_text(n as nat),
    decreases n,
{
    if n < 10 {
        String::from_str(digit_text(n))
    } else {
        let mut r: String = decimal(n / 10);
        let ghost head = r@;
        r.append(digit_text(n % 10));
        assert(r@ =~= head.push(digit((n % 10) as nat)));
        r
    }
}

/// Reading back what was written gives the number.
pub proof fn law_decimal_reads_back(n: nat)
    ensures
        written_count(decimal_text(n)) == Some(n),
    decreases n,
{
    lemma_decimal(n);
    let t = decimal_text(n);
    assert(t.len() > 0);
    assert(is_digit(t[0]));
}

/// Decimal texts are digits, and stand for the number.
pub proof fn lemma_decimal(n: nat)
    ensures
        all_digits(decimal_text(n)),
        digits_value(decimal_text(n)) == n,
    decreases n,
{
    let t = decimal_text(n);
    if n < 10 {
        assert(t.drop_last() =~= Seq::<char>::empty());
        assert(is_digit(t[0]));
        assert(digits_value(t.drop_last()) == 0);
    } else {
        lemma_decimal(n / 10);
        let head = decimal_text(n / 10);
        assert(t.drop_last() =~= head);
        assert forall|i: int| 0 <= i < t.len() implies is_digit(#[trigger] t[i]) by {
            if i < head.len() {
                assert(t[i] == head[i]);
                assert(is_digit(head[i]));
            }
        }
    }
}

/// A text that is one word.
pub open spec fn is_word(s: Seq<char>) -> bool {
    s.len() > 0 && forall|i: int| 0 <= i < s.len() ==> !separates(#[trigger] s[i])
}

/// A word, a separator and a text: the word comes first, the text's words
/// follow.
pub proof fn law_first_word(word: Seq<char>, separator: char, rest: Seq<char>)
    requires
        is_word(word),
        separates(separator),
    ensures
        words(word + seq![separator] + rest) == seq![word] + words(rest),
{
    let s = word + seq![separator] + rest;
    let n = word.len();
    assert(s[n as int] == separator);
    assert forall|k: int| 0 <= k < n implies !separates(#[trigger] s[k]) by {
        assert(s[k] == word[k]);
    }
    lemma_run(s, n);
    assert(!separates(s[0]));
    assert(s.take(n as int) =~= word);
    let t = s.skip(n as int);
    assert(t[0] == separator);
    assert(t.skip(1) =~= rest);
    assert(words(t) == words(rest));
    assert(words(s) == seq![word] + words(t));
}

/// Trimming a word with a separator behind it gives the word.
pub proof fn law_trimmed_word(word: Seq<char>, separator: char)
    requires
        is_word(word),
        separates(separator),
    ensures
        trimmed(word + seq![separator]) == word,
{
    let s = word + seq![separator];
    assert(s[0] == word[0]);
    assert(s.last() == separator);
    assert(s.drop_last() =~= word);
    assert(!separates(word[0]) && !separates(word[word.len() - 1]));
    assert(trimmed(word) == word);
    assert(trimmed(s) == trimmed(word));
}

} // verus!
