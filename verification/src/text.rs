//! Text: decimal numbers, white space and the order of strings.

use vstd::prelude::*;
use vstd::string::*;

verus! {

/// The character of a decimal digit.
pub open spec fn digit(n: int) -> char {
    (n + 48) as char
}

/// The decimal digits of a number, without leading zeros.
pub open spec fn decimal(n: nat) -> Seq<char>
    decreases n,
{
    if n < 10 {
        seq![digit(n as int)]
    } else {
        decimal(n / 10).push(digit((n % 10) as int))
    }
}

/// Every character is a decimal digit.
pub open spec fn all_digits(s: Seq<char>) -> bool {
    forall|i: int| 0 <= i < s.len() ==> '0' <= #[trigger] s[i] <= '9'
}

/// The number that decimal digits stand for.
pub open spec fn digits_value(s: Seq<char>) -> int
    decreases s.len(),
{
    if s.len() == 0 {
        0
    } else {
        digits_value(s.drop_last()) * 10 + (s.last() as int - 48)
    }
}

/// The digits of an unsigned number's text, which may begin with a plus sign.
pub open spec fn unsigned_digits(s: Seq<char>) -> Seq<char> {
    if s.len() > 1 && s[0] == '+' {
        s.skip(1)
    } else {
        s
    }
}

/// The unsigned number that a text stands for, if it is at most `max`: decimal
/// digits, at least one, after an optional plus sign.
pub open spec fn parsed_unsigned(s: Seq<char>, max: int) -> Option<int> {
    let d = unsigned_digits(s);
    if d.len() > 0 && all_digits(d) && digits_value(d) <= max {
        Some(digits_value(d))
    } else {
        None
    }
}

/// The digits of a number stand for that number.
pub proof fn law_decimal_round_trip(n: nat)
    ensures
        all_digits(decimal(n)),
        decimal(n).len() > 0,
        digits_value(decimal(n)) == n,
        forall|max: int| n <= max ==> #[trigger] parsed_unsigned(decimal(n), max) == Some(n as int),
    decreases n,
{
    let d = decimal(n);
    if n < 10 {
        assert(d.drop_last() =~= Seq::<char>::empty());
        assert(digits_value(d.drop_last()) == 0);
    } else {
        law_decimal_round_trip(n / 10);
        assert(d.drop_last() =~= decimal(n / 10));
    }
    assert(d[0] != '+');
}

proof fn lemma_digits_value_bounds(s: Seq<char>)
    requires
        all_digits(s),
    ensures
        digits_value(s) >= 0,
    decreases s.len(),
{
    if s.len() > 0 {
        assert(all_digits(s.drop_last()));
        lemma_digits_value_bounds(s.drop_last());
        assert('0' <= s.last() <= '9');
    }
}

/// More digits stand for no smaller number.
proof fn lemma_digits_value_grows(s: Seq<char>, k: int)
    requires
        all_digits(s),
        0 <= k <= s.len(),
    ensures
        digits_value(s.take(k)) <= digits_value(s),
    decreases s.len(),
{
    if k < s.len() {
        assert(all_digits(s.drop_last()));
        lemma_digits_value_grows(s.drop_last(), k);
        lemma_digits_value_bounds(s.drop_last());
        assert(s.drop_last().take(k) =~= s.take(k));
        assert('0' <= s.last() <= '9');
    } else {
        assert(s.take(k) =~= s);
    }
}

/// Reads an unsigned number of at most `max`.
pub fn parse_unsigned(s: &str, max: u64) -> (r: Option<u64>)
    ensures
        match r {
            Some(n) => parsed_unsigned(s@, max as int) == Some(n as int),
            None => parsed_unsigned(s@, max as int) is None,
        },
{
    let len: usize = s.unicode_len();
    let start: usize = if len > 1 && s.get_char(0) == '+' {
        1
    } else {
        0
    };
    let ghost d = unsigned_digits(s@);
    if len == start {
        return None;
    }
    let mut n: u64 = 0;
    let mut i: usize = start;
    while i < len
        invariant
            len == s@.len(),
            start <= i <= len,
            d == s@.skip(start as int),
            d.len() == len - start,
            all_digits(d.take(i - start)),
            n == digits_value(d.take(i - start)),
            n <= max,
            start < len,
            d == unsigned_digits(s@),
        decreases len - i,
    {
        let c: char = s.get_char(i);
        assert(c == d[i - start]);
        if c < '0' || c > '9' {
            return None;
        }
        let v: u64 = (c as u64) - 48;
        let ghost next = d.take(i - start + 1);
        proof {
            assert(next.drop_last() =~= d.take(i - start));
            assert(next.last() == c);
            if all_digits(d) {
                lemma_digits_value_grows(d, i - start + 1);
            }
        }
        let wide: u128 = (n as u128) * 10 + (v as u128);
        if wide > max as u128 {
            return None;
        }
        n = wide as u64;
        i = i + 1;
    }
    assert(d.take(i - start) =~= d);
    Some(n)
}

/// Appends the decimal digits of a number.
fn append_decimal(out: &mut String, n: u64)
    ensures
        final(out)@ == old(out)@ + decimal(n as nat),
    decreases n,
{
    let last: u64 = n % 10;
    if n >= 10 {
        append_decimal(out, n / 10);
    }
    proof {
        reveal_strlit("0");
        reveal_strlit("1");
        reveal_strlit("2");
        reveal_strlit("3");
        reveal_strlit("4");
        reveal_strlit("5");
        reveal_strlit("6");
        reveal_strlit("7");
        reveal_strlit("8");
        reveal_strlit("9");
    }
    let ghost before = out@;
    if last == 0 {
        out.append("0");
    } else if last == 1 {
        out.append("1");
    } else if last == 2 {
        out.append("2");
    } else if last == 3 {
        out.append("3");
    } else if last == 4 {
        out.append("4");
    } else if last == 5 {
        out.append("5");
    } else if last == 6 {
        out.append("6");
    } else if last == 7 {
        out.append("7");
    } else if last == 8 {
        out.append("8");
    } else {
        out.append("9");
    }
    assert(out@ =~= before.push(digit(last as int)));
    assert(out@ =~= old(out)@ + decimal(n as nat));
}

/// The decimal text of a number.
pub fn to_decimal(n: u64) -> (r: String)
    ensures
        r@ == decimal(n as nat),
{
    let mut r: String = String::new();
    append_decimal(&mut r, n);
    assert(r@ =~= decimal(n as nat));
    r
}

/// A text put together from a prefix and a number.
pub fn with_number(prefix: &str, n: u64) -> (r: String)
    ensures
        r@ == prefix@ + decimal(n as nat),
{
    let mut r: String = prefix.to_owned();
    append_decimal(&mut r, n);
    r
}

/// The characters with the Unicode property White_Space.
pub open spec fn white(c: char) -> bool {
    ||| '\u{9}' <= c <= '\u{d}'
    ||| c == ' '
    ||| c == '\u{85}'
    ||| c == '\u{a0}'
    ||| c == '\u{1680}'
    ||| '\u{2000}' <= c <= '\u{200a}'
    ||| c == '\u{2028}'
    ||| c == '\u{2029}'
    ||| c == '\u{202f}'
    ||| c == '\u{205f}'
    ||| c == '\u{3000}'
}

/// Whether a character is white space.
pub fn is_white(c: char) -> (r: bool)
    ensures
        r == white(c),
{
    ('\u{9}' <= c && c <= '\u{d}') || c == ' ' || c == '\u{85}' || c == '\u{a0}' || c == '\u{1680}'
        || ('\u{2000}' <= c && c <= '\u{200a}') || c == '\u{2028}' || c == '\u{2029}' || c
        == '\u{202f}' || c == '\u{205f}' || c == '\u{3000}'
}

/// A text without the white space at its ends.
pub open spec fn trimmed(s: Seq<char>) -> Seq<char>
    decreases s.len(),
{
    if s.len() == 0 {
        s
    } else if white(s.first()) {
        trimmed(s.skip(1))
    } else if white(s.last()) {
        trimmed(s.drop_last())
    } else {
        s
    }
}

/// A text without the white space at its ends.
pub fn trim(s: &str) -> (r: String)
    ensures
        r@ == trimmed(s@),
{
    let len: usize = s.unicode_len();
    let mut i: usize = 0;
    assert(s@.skip(0) =~= s@);
    while i < len && is_white(s.get_char(i))
        invariant
            len == s@.len(),
            i <= len,
            trimmed(s@) == trimmed(s@.skip(i as int)),
        decreases len - i,
    {
        assert(s@.skip(i as int).skip(1) =~= s@.skip(i + 1));
        i = i + 1;
    }
    let mut j: usize = len;
    assert(s@.subrange(i as int, len as int) =~= s@.skip(i as int));
    while i < j && is_white(s.get_char(j - 1))
        invariant
            len == s@.len(),
            i <= j <= len,
            i < len ==> !white(s@[i as int]),
            trimmed(s@) == trimmed(s@.subrange(i as int, j as int)),
        decreases j,
    {
        let ghost rest = s@.subrange(i as int, j as int);
        assert(rest.first() == s@[i as int]);
        assert(rest.drop_last() =~= s@.subrange(i as int, j - 1));
        j = j - 1;
    }
    let t = s.substring_char(i, j);
    t.to_owned()
}

/// How many characters stand before the first white space.
pub open spec fn word_length(s: Seq<char>) -> int
    decreases s.len(),
{
    if s.len() == 0 || white(s[0]) {
        0
    } else {
        1 + word_length(s.skip(1))
    }
}

/// The parts of a text between white space.
pub open spec fn words(s: Seq<char>) -> Seq<Seq<char>>
    decreases s.len(),
{
    if s.len() == 0 {
        Seq::empty()
    } else if white(s[0]) {
        words(s.skip(1))
    } else {
        proof {
            lemma_word_length(s);
        }
        seq![s.take(word_length(s))] + words(s.skip(word_length(s)))
    }
}

/// A word ends where white space begins.
pub proof fn lemma_word_length(s: Seq<char>)
    ensures
        0 <= word_length(s) <= s.len(),
        forall|i: int| 0 <= i < word_length(s) ==> !white(#[trigger] s[i]),
        word_length(s) < s.len() ==> white(s[word_length(s)]),
    decreases s.len(),
{
    if s.len() > 0 && !white(s[0]) {
        lemma_word_length(s.skip(1));
        assert forall|i: int| 0 <= i < word_length(s) implies !white(#[trigger] s[i]) by {
            if i > 0 {
                assert(s.skip(1)[i - 1] == s[i]);
            }
        }
    }
}

/// The parts of a text between white space.
pub fn split_whitespace(s: &str) -> (r: Vec<String>)
    ensures
        texts(r@) == words(s@),
{
    let len: usize = s.unicode_len();
    let mut out: Vec<String> = Vec::new();
    let mut i: usize = 0;
    assert(s@.skip(0) =~= s@);
    assert(texts(out@) + words(s@) =~= words(s@));
    while i < len
        invariant
            len == s@.len(),
            i <= len,
            texts(out@) + words(s@.skip(i as int)) == words(s@),
        decreases len - i,
    {
        let ghost rest = s@.skip(i as int);
        if is_white(s.get_char(i)) {
            assert(rest.skip(1) =~= s@.skip(i + 1));
            i = i + 1;
        } else {
            let mut j: usize = i + 1;
            while j < len && !is_white(s.get_char(j))
                invariant
                    len == s@.len(),
                    i < j <= len,
                    forall|k: int| i <= k < j ==> !white(#[trigger] s@[k]),
                decreases len - j,
            {
                j = j + 1;
            }
            proof {
                lemma_word_length(rest);
                let n = word_length(rest);
                if n < j - i {
                    assert(!white(s@[i + n]));
                    assert(rest[n] == s@[i + n]);
                }
                if n > j - i {
                    assert(!white(rest[j - i]));
                    assert(rest[j - i] == s@[j as int]);
                }
                assert(rest.skip(n) =~= s@.skip(j as int));
            }
            let word = s.substring_char(i, j).to_owned();
            let ghost before = texts(out@);
            out.push(word);
            proof {
                assert(word@ =~= rest.take(j - i));
                assert(texts(out@) =~= before.push(word@));
                assert(texts(out@) + words(s@.skip(j as int)) =~= before + words(rest));
            }
            i = j;
        }
    }
    assert(texts(out@) =~= texts(out@) + words(s@.skip(len as int)));
    out
}

/// What follows a prefix, if the text has it.
pub open spec fn after_prefix(s: Seq<char>, prefix: Seq<char>) -> Option<Seq<char>> {
    if prefix.is_prefix_of(s) {
        Some(s.skip(prefix.len() as int))
    } else {
        None
    }
}

/// What follows a prefix, if the text has it.
pub fn strip_prefix(s: &str, prefix: &str) -> (r: Option<String>)
    ensures
        match r {
            Some(t) => after_prefix(s@, prefix@) == Some(t@),
            None => after_prefix(s@, prefix@) is None,
        },
{
    let len: usize = s.unicode_len();
    let n: usize = prefix.unicode_len();
    if len < n {
        return None;
    }
    let mut i: usize = 0;
    while i < n
        invariant
            len == s@.len(),
            n == prefix@.len(),
            i <= n <= len,
            forall|k: int| 0 <= k < i ==> s@[k] == prefix@[k],
        decreases n - i,
    {
        if s.get_char(i) != prefix.get_char(i) {
            assert(s@.take(n as int)[i as int] != prefix@[i as int]);
            return None;
        }
        i = i + 1;
    }
    assert(prefix@ =~= s@.take(n as int));
    let t = s.substring_char(n, len);
    assert(t@ =~= s@.skip(n as int));
    Some(t.to_owned())
}

/// The order of byte strings, by their first difference.
pub open spec fn bytes_at_most(a: Seq<u8>, b: Seq<u8>) -> bool
    decreases a.len(),
{
    if a.len() == 0 {
        true
    } else if b.len() == 0 {
        false
    } else if a[0] == b[0] {
        bytes_at_most(a.skip(1), b.skip(1))
    } else {
        a[0] < b[0]
    }
}

/// The order of texts: that of their UTF-8 bytes.
pub open spec fn text_below(a: Seq<char>, b: Seq<char>) -> bool {
    a != b && bytes_at_most(vstd::utf8::encode_utf8(a), vstd::utf8::encode_utf8(b))
}

/// The texts of a list of strings.
pub open spec fn texts(v: Seq<String>) -> Seq<Seq<char>> {
    Seq::new(v.len(), |i: int| v[i]@)
}

/// A list is in order, and no text occurs twice in it.
pub open spec fn ordered(s: Seq<Seq<char>>) -> bool {
    forall|i: int, j: int| 0 <= i < j < s.len() ==> text_below(#[trigger] s[i], #[trigger] s[j])
}

/// `s` lists the texts of a set in order.
pub open spec fn is_listing(s: Seq<Seq<char>>, set: Set<Seq<char>>) -> bool {
    ordered(s) && forall|t: Seq<char>| s.contains(t) <==> #[trigger] set.contains(t)
}

/// The texts of a set, in order.
pub open spec fn listing(set: Set<Seq<char>>) -> Seq<Seq<char>> {
    choose|s: Seq<Seq<char>>| is_listing(s, set)
}

proof fn lemma_bytes_order_total(a: Seq<u8>, b: Seq<u8>)
    ensures
        bytes_at_most(a, b) || bytes_at_most(b, a),
        bytes_at_most(a, a),
        bytes_at_most(a, b) && bytes_at_most(b, a) ==> a == b,
    decreases a.len(),
{
    if a.len() > 0 {
        lemma_bytes_order_total(a.skip(1), b.skip(1));
        if b.len() > 0 && bytes_at_most(a, b) && bytes_at_most(b, a) {
            assert(a =~= seq![a[0]] + a.skip(1));
            assert(b =~= seq![b[0]] + b.skip(1));
        }
    } else if b.len() == 0 {
        assert(a =~= b);
    }
}

proof fn lemma_bytes_order_transitive(a: Seq<u8>, b: Seq<u8>, c: Seq<u8>)
    requires
        bytes_at_most(a, b),
        bytes_at_most(b, c),
    ensures
        bytes_at_most(a, c),
    decreases a.len(),
{
    if a.len() > 0 && a[0] == b[0] && b[0] == c[0] {
        lemma_bytes_order_transitive(a.skip(1), b.skip(1), c.skip(1));
    }
}

/// Of two different texts exactly one comes first.
pub proof fn lemma_text_order_total(a: Seq<char>, b: Seq<char>)
    ensures
        a != b ==> (text_below(a, b) <==> !text_below(b, a)),
        !text_below(a, a),
{
    let x = vstd::utf8::encode_utf8(a);
    let y = vstd::utf8::encode_utf8(b);
    lemma_bytes_order_total(x, y);
    vstd::utf8::encode_utf8_decode_utf8(a);
    vstd::utf8::encode_utf8_decode_utf8(b);
}

/// The order of texts is transitive.
pub proof fn lemma_text_order_transitive(a: Seq<char>, b: Seq<char>, c: Seq<char>)
    requires
        text_below(a, b),
        text_below(b, c),
    ensures
        text_below(a, c),
{
    lemma_bytes_order_transitive(
        vstd::utf8::encode_utf8(a),
        vstd::utf8::encode_utf8(b),
        vstd::utf8::encode_utf8(c),
    );
    lemma_text_order_total(a, b);
}

/// The texts of a set can be listed in order in one way only.
pub proof fn lemma_listing_unique(s: Seq<Seq<char>>, r: Seq<Seq<char>>, set: Set<Seq<char>>)
    requires
        is_listing(s, set),
        is_listing(r, set),
    ensures
        s == r,
    decreases s.len(),
{
    if s.len() == 0 {
        if r.len() > 0 {
            assert(r.contains(r[0]));
            assert(set.contains(r[0]));
            assert(s.contains(r[0]));
        }
        assert(s =~= r);
    } else {
        assert(s.contains(s[0]));
        assert(set.contains(s[0]));
        assert(r.contains(s[0]));
        let k = choose|k: int| 0 <= k < r.len() && r[k] == s[0];
        assert(r.contains(r[0]));
        assert(set.contains(r[0]));
        assert(s.contains(r[0]));
        let l = choose|l: int| 0 <= l < s.len() && s[l] == r[0];
        if k > 0 {
            assert(text_below(r[0], r[k]));
            if l > 0 {
                assert(text_below(s[0], s[l]));
            }
            lemma_text_order_total(s[0], r[0]);
            assert(false);
        }
        let rest = set.remove(s[0]);
        assert(is_listing(s.skip(1), rest)) by {
            lemma_listing_rest(s, set);
        }
        assert(is_listing(r.skip(1), rest)) by {
            lemma_listing_rest(r, set);
        }
        lemma_listing_unique(s.skip(1), r.skip(1), rest);
        assert(s =~= seq![s[0]] + s.skip(1));
        assert(r =~= seq![r[0]] + r.skip(1));
    }
}

proof fn lemma_listing_rest(s: Seq<Seq<char>>, set: Set<Seq<char>>)
    requires
        is_listing(s, set),
        s.len() > 0,
    ensures
        is_listing(s.skip(1), set.remove(s[0])),
{
    let t = s.skip(1);
    assert forall|i: int, j: int| 0 <= i < j < t.len() implies text_below(
        #[trigger] t[i],
        #[trigger] t[j],
    ) by {
        assert(text_below(s[i + 1], s[j + 1]));
    }
    assert forall|x: Seq<char>| t.contains(x) <==> #[trigger] set.remove(s[0]).contains(x) by {
        if t.contains(x) {
            let n = choose|n: int| 0 <= n < t.len() && t[n] == x;
            assert(s[n + 1] == x);
            assert(text_below(s[0], s[n + 1]));
            assert(s.contains(x));
            assert(set.contains(x));
        }
        if set.remove(s[0]).contains(x) {
            assert(set.contains(x));
            let n = choose|n: int| 0 <= n < s.len() && s[n] == x;
            assert(t[n - 1] == x);
        }
    }
}

/// A list of the texts of a set is the listing of it.
pub proof fn lemma_is_listing(s: Seq<Seq<char>>, set: Set<Seq<char>>)
    requires
        is_listing(s, set),
    ensures
        s == listing(set),
{
    lemma_listing_unique(s, listing(set), set);
}

/// Whether the first text comes before the second.
pub fn str_below(a: &str, b: &str) -> (r: bool)
    ensures
        r == text_below(a@, b@),
{
    let x = a.as_bytes();
    let y = b.as_bytes();
    let mut i: usize = 0;
    proof {
        vstd::utf8::encode_utf8_decode_utf8(a@);
        vstd::utf8::encode_utf8_decode_utf8(b@);
        assert(x@.skip(0) =~= x@);
        assert(y@.skip(0) =~= y@);
    }
    while i < x.len() && i < y.len() && x[i] == y[i]
        invariant
            i <= x.len(),
            i <= y.len(),
            x@.take(i as int) == y@.take(i as int),
            bytes_at_most(x@, y@) == bytes_at_most(x@.skip(i as int), y@.skip(i as int)),
        decreases x.len() - i,
    {
        assert(x@.skip(i as int).skip(1) =~= x@.skip(i + 1));
        assert(y@.skip(i as int).skip(1) =~= y@.skip(i + 1));
        assert(x@.take(i + 1) =~= x@.take(i as int).push(x@[i as int]));
        assert(y@.take(i + 1) =~= y@.take(i as int).push(y@[i as int]));
        i = i + 1;
    }
    if i < x.len() && i < y.len() {
        assert(x@.skip(i as int)[0] == x@[i as int]);
        assert(y@.skip(i as int)[0] == y@[i as int]);
        x[i] < y[i]
    } else {
        proof {
            assert(x@.take(i as int).len() == i);
            if i == x@.len() && i == y@.len() {
                assert(x@ =~= x@.take(i as int));
                assert(y@ =~= y@.take(i as int));
            }
        }
        i < y.len()
    }
}

/// Adds a text to a list in order, unless it stands there already.
pub fn insert_ordered(list: &mut Vec<String>, t: String)
    requires
        ordered(texts(old(list)@)),
    ensures
        ordered(texts(final(list)@)),
        forall|x: Seq<char>|
            texts(final(list)@).contains(x) <==> (texts(old(list)@).contains(x) || x == t@),
{
    let ghost before = texts(list@);
    let mut j: usize = 0;
    while j < list.len() && str_below(list[j].as_str(), t.as_str())
        invariant
            j <= list.len(),
            list@ == old(list)@,
            before == texts(list@),
            forall|k: int| 0 <= k < j ==> text_below(#[trigger] before[k], t@),
        decreases list.len() - j,
    {
        assert(before[j as int] == list@[j as int]@);
        j = j + 1;
    }
    if j < list.len() && list[j] == t {
        assert(before[j as int] == t@);
        assert(before.contains(t@));
        return ;
    }
    let ghost x = t@;
    proof {
        assert forall|k: int| j <= k < before.len() implies text_below(x, #[trigger] before[k]) by {
            assert(before[j as int] == list@[j as int]@);
            lemma_text_order_total(x, before[j as int]);
            if k > j {
                assert(text_below(before[j as int], before[k]));
                lemma_text_order_transitive(x, before[j as int], before[k]);
            }
        }
    }
    list.insert(j, t);
    proof {
        let after = texts(list@);
        assert(after =~= before.insert(j as int, x));
        assert forall|a: int, b: int| 0 <= a < b < after.len() implies text_below(
            #[trigger] after[a],
            #[trigger] after[b],
        ) by {
            if a < j && b > j {
                assert(text_below(before[a], before[b - 1]));
            } else if a < j && b < j {
                assert(text_below(before[a], before[b]));
            } else if a > j {
                assert(text_below(before[a - 1], before[b - 1]));
            }
        }
        assert forall|y: Seq<char>| after.contains(y) <==> (before.contains(y) || y == x) by {
            if before.contains(y) {
                let n = choose|n: int| 0 <= n < before.len() && before[n] == y;
                if n < j {
                    assert(after[n] == y);
                } else {
                    assert(after[n + 1] == y);
                }
            }
            if y == x {
                assert(after[j as int] == y);
            }
            if after.contains(y) && y != x {
                let n = choose|n: int| 0 <= n < after.len() && after[n] == y;
                if n < j {
                    assert(before[n] == y);
                } else {
                    assert(before[n - 1] == y);
                }
            }
        }
    }
}

/// Whether a text stands in a list.
pub fn has_text(list: &Vec<String>, t: &String) -> (r: bool)
    ensures
        r == texts(list@).contains(t@),
{
    let mut i: usize = 0;
    while i < list.len()
        invariant
            i <= list.len(),
            forall|k: int| 0 <= k < i ==> (#[trigger] list@[k])@ != t@,
        decreases list.len() - i,
    {
        if list[i] == *t {
            assert(texts(list@)[i as int] == t@);
            return true;
        }
        i = i + 1;
    }
    false
}

/// Where a text is to stand in a list in order.
proof fn lemma_ordered_place(s: Seq<Seq<char>>, x: Seq<char>) -> (j: int)
    requires
        ordered(s),
        !s.contains(x),
    ensures
        0 <= j <= s.len(),
        forall|k: int| 0 <= k < j ==> text_below(#[trigger] s[k], x),
        forall|k: int| j <= k < s.len() ==> text_below(x, #[trigger] s[k]),
    decreases s.len(),
{
    if s.len() == 0 {
        0
    } else {
        let last = s[s.len() - 1];
        assert(s.contains(last));
        lemma_text_order_total(last, x);
        if text_below(last, x) {
            assert forall|k: int| 0 <= k < s.len() implies text_below(#[trigger] s[k], x) by {
                if k < s.len() - 1 {
                    assert(text_below(s[k], last));
                    lemma_text_order_transitive(s[k], last, x);
                }
            }
            s.len() as int
        } else {
            let front = s.drop_last();
            assert forall|i: int, j: int| 0 <= i < j < front.len() implies text_below(
                #[trigger] front[i],
                #[trigger] front[j],
            ) by {
                assert(text_below(s[i], s[j]));
            }
            if front.contains(x) {
                let n = choose|n: int| 0 <= n < front.len() && front[n] == x;
                assert(s[n] == x);
            }
            let j = lemma_ordered_place(front, x);
            assert forall|k: int| 0 <= k < j implies text_below(#[trigger] s[k], x) by {
                assert(front[k] == s[k]);
            }
            assert forall|k: int| j <= k < s.len() implies text_below(x, #[trigger] s[k]) by {
                if k < front.len() {
                    assert(front[k] == s[k]);
                }
            }
            j
        }
    }
}

/// The texts of a finite set can be listed in order.
pub proof fn lemma_listing_exists(set: Set<Seq<char>>)
    requires
        set.finite(),
    ensures
        is_listing(listing(set), set),
    decreases set.len(),
{
    if set.len() == 0 {
        assert(is_listing(Seq::<Seq<char>>::empty(), set));
    } else {
        let x = set.choose();
        let rest = set.remove(x);
        lemma_listing_exists(rest);
        let s = listing(rest);
        assert(!s.contains(x)) by {
            assert(!rest.contains(x));
        }
        let j = lemma_ordered_place(s, x);
        let r = s.insert(j, x);
        assert forall|a: int, b: int| 0 <= a < b < r.len() implies text_below(
            #[trigger] r[a],
            #[trigger] r[b],
        ) by {
            let c = if a < j { a } else { a - 1 };
            let d = if b < j { b } else { b - 1 };
            if a != j && b != j {
                assert(text_below(s[c], s[d]));
            } else if a == j {
                assert(text_below(x, s[d]));
            } else {
                assert(text_below(s[c], x));
            }
        }
        assert forall|t: Seq<char>| r.contains(t) <==> #[trigger] set.contains(t) by {
            if t == x {
                assert(r[j] == t);
            } else {
                assert(rest.contains(t) <==> set.contains(t));
                if s.contains(t) {
                    let n = choose|n: int| 0 <= n < s.len() && s[n] == t;
                    assert(r[if n < j { n } else { n + 1 }] == t);
                }
                if r.contains(t) {
                    let n = choose|n: int| 0 <= n < r.len() && r[n] == t;
                    assert(s[if n < j { n } else { n - 1 }] == t);
                }
            }
        }
        assert(is_listing(r, set));
    }
}

/// What is left of a text without the white space at its ends stands between
/// two places.
pub open spec fn trims(s: Seq<char>, i: int, j: int) -> bool {
    &&& 0 <= i <= j <= s.len()
    &&& trimmed(s) == s.subrange(i, j)
    &&& forall|k: int| 0 <= k < i ==> white(#[trigger] s[k])
    &&& forall|k: int| j <= k < s.len() ==> white(#[trigger] s[k])
    &&& i < j ==> !white(s[i]) && !white(s[j - 1])
}

proof fn lemma_trims(s: Seq<char>) -> (r: (int, int))
    ensures
        trims(s, r.0, r.1),
    decreases s.len(),
{
    if s.len() == 0 {
        assert(s.subrange(0, 0) =~= s);
        (0, 0)
    } else if white(s.first()) {
        let t = s.skip(1);
        let (i, j) = lemma_trims(t);
        assert(s.subrange(i + 1, j + 1) =~= t.subrange(i, j));
        assert forall|k: int| 0 <= k < i + 1 implies white(#[trigger] s[k]) by {
            if k > 0 {
                assert(white(t[k - 1]));
            }
        }
        assert forall|k: int| j + 1 <= k < s.len() implies white(#[trigger] s[k]) by {
            assert(white(t[k - 1]));
        }
        (i + 1, j + 1)
    } else if white(s.last()) {
        let t = s.drop_last();
        let (i, j) = lemma_trims(t);
        assert(s.subrange(i, j) =~= t.subrange(i, j));
        assert forall|k: int| 0 <= k < i implies white(#[trigger] s[k]) by {
            assert(white(t[k]));
        }
        assert forall|k: int| j <= k < s.len() implies white(#[trigger] s[k]) by {
            if k < t.len() {
                assert(white(t[k]));
            }
        }
        (i, j)
    } else {
        assert(s.subrange(0, s.len() as int) =~= s);
        (0, s.len() as int)
    }
}

/// A text without the white space at its ends is what is left between white
/// space: it neither begins nor ends with white space, and nothing is left
/// exactly where all is white space.
pub proof fn law_trimmed_is_between_white_space(s: Seq<char>)
    ensures
        exists|i: int, j: int| trims(s, i, j),
        trimmed(s).len() == 0 <==> forall|k: int| 0 <= k < s.len() ==> white(#[trigger] s[k]),
{
    let (i, j) = lemma_trims(s);
    assert(trims(s, i, j));
    if trimmed(s).len() == 0 {
        assert forall|k: int| 0 <= k < s.len() implies white(#[trigger] s[k]) by {
            if k < i {
                assert(white(s[k]));
            }
        }
    }
}

/// The words of a text hold its characters but for the white space, in order,
/// and none of them is empty or holds white space.
pub proof fn law_words_are_between_white_space(s: Seq<char>)
    ensures
        forall|i: int|
            0 <= i < words(s).len() ==> (#[trigger] words(s)[i]).len() > 0,
        forall|i: int, k: int|
            0 <= i < words(s).len() && 0 <= k < words(s)[i].len() ==> !white(
                #[trigger] words(s)[i][k],
            ),
        joined_words(words(s)) == s.filter(|c: char| !white(c)),
    decreases s.len(),
{
    let kept = |c: char| !white(c);
    reveal(Seq::filter);
    if s.len() == 0 {
        assert(joined_words(words(s)) =~= s.filter(kept));
    } else if white(s[0]) {
        law_words_are_between_white_space(s.skip(1));
        assert(s =~= seq![s[0]] + s.skip(1));
        Seq::filter_distributes_over_add(seq![s[0]], s.skip(1), kept);
        assert(seq![s[0]].filter(kept) =~= Seq::empty()) by {
            reveal_with_fuel(Seq::filter, 2);
            assert(seq![s[0]].drop_last() =~= Seq::empty());
        }
        assert(s.filter(kept) =~= s.skip(1).filter(kept));
    } else {
        lemma_word_length(s);
        let n = word_length(s);
        let first = s.take(n);
        let rest = s.skip(n);
        law_words_are_between_white_space(rest);
        assert(s =~= first + rest);
        Seq::filter_distributes_over_add(first, rest, kept);
        lemma_filter_keeps_all(first, kept);
        let all = words(s);
        let later = words(rest);
        assert(all[0] == first);
        assert forall|i: int| 0 <= i < all.len() implies (#[trigger] all[i]).len() > 0 by {
            if i > 0 {
                assert(all[i] == later[i - 1]);
            }
        }
        assert forall|i: int, k: int| 0 <= i < all.len() && 0 <= k < all[i].len() implies !white(
            #[trigger] all[i][k],
        ) by {
            if i > 0 {
                assert(all[i] == later[i - 1]);
                assert(!white(later[i - 1][k]));
            } else {
                assert(first[k] == s[k]);
            }
        }
        assert(all.skip(1) =~= later);
        assert(joined_words(all) == first + joined_words(later));
    }
}

/// Words put together.
pub open spec fn joined_words(w: Seq<Seq<char>>) -> Seq<char>
    decreases w.len(),
{
    if w.len() == 0 {
        Seq::empty()
    } else {
        w[0] + joined_words(w.skip(1))
    }
}

proof fn lemma_filter_keeps_all(s: Seq<char>, kept: spec_fn(char) -> bool)
    requires
        forall|i: int| 0 <= i < s.len() ==> kept(#[trigger] s[i]),
    ensures
        s.filter(kept) == s,
    decreases s.len(),
{
    reveal(Seq::filter);
    if s.len() > 0 {
        let front = s.drop_last();
        assert forall|i: int| 0 <= i < front.len() implies kept(#[trigger] front[i]) by {
            assert(front[i] == s[i]);
        }
        lemma_filter_keeps_all(front, kept);
        assert(kept(s[s.len() - 1]));
        assert(s =~= front.push(s.last()));
    } else {
        assert(s.filter(kept) =~= s);
    }
}

/// A text is read as a number exactly where it is made of decimal digits, one
/// at least, after a plus sign or none, and the number is not too great.
/// Further digits count as in decimal numbers.
pub proof fn law_numbers_are_read(d: Seq<char>, max: int)
    requires
        d.len() > 0,
        d[0] != '+',
    ensures
        parsed_unsigned(d, max) is Some <==> all_digits(d) && digits_value(d) <= max,
        parsed_unsigned(seq!['+'] + d, max) == parsed_unsigned(d, max),
        parsed_unsigned(d, max) matches Some(n) ==> n == digits_value(d),
        !all_digits(d) ==> parsed_unsigned(d, max) is None,
        parsed_unsigned(Seq::<char>::empty(), max) is None,
        forall|c: char|
            digits_value(#[trigger] d.push(c)) == 10 * digits_value(d) + (c as int - '0' as int),
{
    assert((seq!['+'] + d).skip(1) =~= d);
    assert forall|c: char| digits_value(#[trigger] d.push(c)) == 10 * digits_value(d) + (c as int
        - '0' as int) by {
        assert(d.push(c).drop_last() =~= d);
    }
}

/// A text has a prefix exactly where it is that prefix and something after it,
/// and that is what follows.
pub proof fn law_prefix_is_stripped(s: Seq<char>, prefix: Seq<char>, rest: Seq<char>)
    ensures
        after_prefix(prefix + rest, prefix) == Some(rest),
        after_prefix(s, prefix) matches Some(t) ==> prefix + t == s,
{
    assert((prefix + rest).take(prefix.len() as int) =~= prefix);
    assert((prefix + rest).skip(prefix.len() as int) =~= rest);
    if after_prefix(s, prefix) is Some {
        assert(prefix + s.skip(prefix.len() as int) =~= s);
    }
}

/// Of two byte strings with a common beginning, the one with the smaller byte
/// after it comes first; one that is the beginning of another comes before it.
pub proof fn law_bytes_are_ordered_by_the_first_difference(
    common: Seq<u8>,
    x: u8,
    y: u8,
    a: Seq<u8>,
    b: Seq<u8>,
)
    ensures
        x != y ==> (bytes_at_most(common + seq![x] + a, common + seq![y] + b) <==> x < y),
        bytes_at_most(common, common + a),
        a.len() > 0 ==> !bytes_at_most(common + a, common),
    decreases common.len(),
{
    let l = common + seq![x] + a;
    let r = common + seq![y] + b;
    if common.len() > 0 {
        let rest = common.skip(1);
        law_bytes_are_ordered_by_the_first_difference(rest, x, y, a, b);
        assert(l.skip(1) =~= rest + seq![x] + a);
        assert(r.skip(1) =~= rest + seq![y] + b);
        assert((common + a).skip(1) =~= rest + a);
        assert(l[0] == common[0] && r[0] == common[0] && (common + a)[0] == common[0]);
    } else {
        assert(l[0] == x && r[0] == y);
    }
}

/// White space is what separates words: blanks, tabs and line ends, and the
/// further spaces of Unicode; letters, digits and punctuation of ASCII are
/// none.
pub proof fn law_white_space(c: char)
    ensures
        white(' ') && white('\t') && white('\n') && white('\r') && white('\u{a0}') && white('\u{3000}'),
        '!' <= c <= '~' ==> !white(c),
        c < '\t' ==> !white(c),
{
}

/// White space splits: the words on both sides of it are the words of the two
/// sides; and a text that is not empty and holds no white space is one word.
pub proof fn law_words_are_split_by_white_space(a: Seq<char>, c: char, b: Seq<char>)
    requires
        white(c),
    ensures
        words(a.push(c) + b) == words(a) + words(b),
        a.len() > 0 && (forall|i: int| 0 <= i < a.len() ==> !white(#[trigger] a[i])) ==> words(a) == seq![
            a,
        ],
        words(Seq::<char>::empty()).len() == 0,
    decreases a.len(),
{
    let s = a.push(c) + b;
    if a.len() == 0 {
        assert(s[0] == c);
        assert(s.skip(1) =~= b);
        assert(words(a) + words(b) =~= words(b));
    } else if white(a[0]) {
        assert(s[0] == a[0]);
        assert(s.skip(1) =~= a.skip(1).push(c) + b);
        law_words_are_split_by_white_space(a.skip(1), c, b);
    } else {
        lemma_word_length(a);
        lemma_word_length(s);
        let n = word_length(a);
        let m = word_length(s);
        assert(s[0] == a[0]);
        if m < n {
            assert(s[m] == a[m]);
            assert(!white(a[m]));
        }
        if m > n {
            assert(!white(s[n]));
            if n < a.len() {
                assert(s[n] == a[n]);
            }
        }
        assert(s.take(n) =~= a.take(n));
        assert(s.skip(n) =~= a.skip(n).push(c) + b);
        assert(n > 0) by {
            assert(word_length(a) == 1 + word_length(a.skip(1)));
            lemma_word_length(a.skip(1));
        }
        law_words_are_split_by_white_space(a.skip(n), c, b);
        assert(words(s) =~= words(a) + words(b));
        if forall|i: int| 0 <= i < a.len() ==> !white(#[trigger] a[i]) {
            if n < a.len() {
                assert(!white(a[n]));
            }
            assert(a.take(n) =~= a);
            assert(words(a.skip(n)) =~= Seq::empty());
            assert(words(a) =~= seq![a]);
        }
    }
}

/// The digits of a number do not begin with a zero, but for those of zero.
pub proof fn law_decimal_has_no_leading_zero(n: nat)
    ensures
        decimal(n)[0] == '0' <==> n == 0,
        n == 0 ==> decimal(n) == seq!['0'],
    decreases n,
{
    if n >= 10 {
        law_decimal_has_no_leading_zero(n / 10);
        law_decimal_round_trip(n / 10);
        assert(decimal(n)[0] == decimal(n / 10)[0]);
    } else {
        assert(decimal(n)[0] == digit(n as int));
        assert(digit(0) == '0');
        assert(n == 0 ==> decimal(n) =~= seq!['0']);
    }
}

} // verus!
