//! Character classes and the string operations the rest of the crate is built on.
//!
//! Every operation is specified over `Seq<char>`, the view of `str` and `String`.

use vstd::prelude::*;
use vstd::string::StringExecFns;
use vstd::utf8::{encode_utf8, encode_utf8_decode_utf8};

verus! {

/// `String::push` appends one character at the end and changes nothing else,
/// as the standard library documents.
pub assume_specification[ String::push ](s: &mut String, c: char)
    ensures
        final(s)@ == old(s)@.push(c),
;

/// Whether two strings hold the same characters. They do exactly when
/// they hold the same bytes, since a string is read back from its bytes.
pub fn same_text(a: &str, b: &str) -> (r: bool)
    ensures
        r == (a@ == b@),
{
    let x = a.as_bytes();
    let y = b.as_bytes();
    proof {
        encode_utf8_decode_utf8(a@);
        encode_utf8_decode_utf8(b@);
    }
    if x.len() != y.len() {
        return false;
    }
    let mut i: usize = 0;
    while i < x.len()
        invariant
            i <= x.len(),
            x.len() == y.len(),
            x@ == encode_utf8(a@),
            y@ == encode_utf8(b@),
            forall|k: int| 0 <= k < i ==> x@[k] == y@[k],
        decreases x.len() - i,
    {
        if x[i] != y[i] {
            return false;
        }
        i += 1;
    }
    proof {
        assert(x@ =~= y@);
    }
    true
}

/// The code points with the Unicode property `White_Space`.
pub open spec fn is_space(c: char) -> bool {
    let u = c as u32;
    ||| 0x09 <= u <= 0x0D
    ||| u == 0x20
    ||| u == 0x85
    ||| u == 0xA0
    ||| u == 0x1680
    ||| 0x2000 <= u <= 0x200A
    ||| u == 0x2028
    ||| u == 0x2029
    ||| u == 0x202F
    ||| u == 0x205F
    ||| u == 0x3000
}

/// The ASCII decimal digits.
pub open spec fn is_ascii_digit(c: char) -> bool {
    '0' <= c <= '9'
}

/// The ASCII letters.
pub open spec fn is_ascii_letter(c: char) -> bool {
    'a' <= c <= 'z' || 'A' <= c <= 'Z'
}

/// The ASCII letters and digits.
pub open spec fn is_ascii_alnum(c: char) -> bool {
    is_ascii_digit(c) || is_ascii_letter(c)
}

/// Decides whether `c` is white space.
pub fn char_is_space(c: char) -> (r: bool)
    ensures
        r == is_space(c),
{
    let u: u32 = c as u32;
    (0x09 <= u && u <= 0x0D) || u == 0x20 || u == 0x85 || u == 0xA0 || u == 0x1680 || (0x2000 <= u
        && u <= 0x200A) || u == 0x2028 || u == 0x2029 || u == 0x202F || u == 0x205F || u == 0x3000
}

/// Decides whether `c` is an ASCII decimal digit.
pub fn char_is_digit(c: char) -> (r: bool)
    ensures
        r == is_ascii_digit(c),
{
    '0' <= c && c <= '9'
}

/// Decides whether `c` is an ASCII letter.
pub fn char_is_letter(c: char) -> (r: bool)
    ensures
        r == is_ascii_letter(c),
{
    ('a' <= c && c <= 'z') || ('A' <= c && c <= 'Z')
}

/// Decides whether `c` is an ASCII letter or digit.
pub fn char_is_alnum(c: char) -> (r: bool)
    ensures
        r == is_ascii_alnum(c),
{
    char_is_digit(c) || char_is_letter(c)
}

/// The characters of `s`, in order.
pub fn chars_of(s: &str) -> (r: Vec<char>)
    ensures
        r@ == s@,
{
    let mut out: Vec<char> = Vec::new();
    for c in it: s.chars()
        invariant
            it.seq() == s@,
            out@ == s@.take(it.index() as int),
    {
        out.push(c);
    }
    out
}

/// The string made of the characters `v[from..to]`.
pub fn string_of(v: &Vec<char>, from: usize, to: usize) -> (r: String)
    requires
        from <= to <= v.len(),
    ensures
        r@ == v@.subrange(from as int, to as int),
{
    let mut out = String::new();
    let mut i: usize = from;
    while i < to
        invariant
            from <= i <= to <= v.len(),
            out@ == v@.subrange(from as int, i as int),
        decreases to - i,
    {
        out.push(v[i]);
        i += 1;
    }
    out
}

/// Index of the first character at or after `i` that is not white space,
/// or the length of `s` when there is none.
pub open spec fn skip_spaces(s: Seq<char>, i: int) -> int
    decreases s.len() - i,
{
    if 0 <= i < s.len() && is_space(s[i]) {
        skip_spaces(s, i + 1)
    } else {
        i
    }
}

/// End of the last run of non-space characters that ends at or before `j`.
pub open spec fn back_spaces(s: Seq<char>, j: int) -> int
    decreases j,
{
    if 0 < j <= s.len() && is_space(s[j - 1]) {
        back_spaces(s, j - 1)
    } else {
        j
    }
}

/// `s` without its leading and trailing white space.
pub open spec fn trimmed(s: Seq<char>) -> Seq<char> {
    let a = skip_spaces(s, 0);
    let b = back_spaces(s, s.len() as int);
    if a < b {
        s.subrange(a, b)
    } else {
        Seq::empty()
    }
}

/// A cell is blank when nothing is left of it after trimming.
pub open spec fn is_blank(s: Seq<char>) -> bool {
    skip_spaces(s, 0) >= s.len()
}

/// The search for the first character that is no white space ends within
/// the string, at such a character if there is one, and passes white space
/// only.
pub proof fn lemma_skip_spaces_bounds(s: Seq<char>, i: int)
    requires
        0 <= i <= s.len(),
    ensures
        i <= skip_spaces(s, i) <= s.len(),
        forall|k: int| i <= k < skip_spaces(s, i) ==> is_space(#[trigger] s[k]),
        skip_spaces(s, i) < s.len() ==> !is_space(s[skip_spaces(s, i)]),
    decreases s.len() - i,
{
    if i < s.len() && is_space(s[i]) {
        lemma_skip_spaces_bounds(s, i + 1);
    }
}

/// The search for the end of the last run of other characters goes back
/// over white space only, and ends behind such a character if there is one.
pub proof fn lemma_back_spaces_bounds(s: Seq<char>, j: int)
    requires
        0 <= j <= s.len(),
    ensures
        0 <= back_spaces(s, j) <= j,
        forall|k: int| back_spaces(s, j) <= k < j ==> is_space(#[trigger] s[k]),
        back_spaces(s, j) > 0 ==> !is_space(s[back_spaces(s, j) - 1]),
    decreases j,
{
    if 0 < j && is_space(s[j - 1]) {
        lemma_back_spaces_bounds(s, j - 1);
    }
}

/// A string is blank exactly when every character of it is white space, and
/// exactly when trimming leaves nothing.
pub proof fn lemma_blank_characterised(s: Seq<char>)
    ensures
        is_blank(s) <==> (forall|k: int| 0 <= k < s.len() ==> is_space(#[trigger] s[k])),
        is_blank(s) <==> trimmed(s).len() == 0,
        !is_blank(s) ==> skip_spaces(s, 0) < back_spaces(s, s.len() as int),
{
    lemma_skip_spaces_bounds(s, 0);
    lemma_back_spaces_bounds(s, s.len() as int);
    let a = skip_spaces(s, 0);
    let b = back_spaces(s, s.len() as int);
    if a < s.len() {
        assert(!is_space(s[a]));
        if b <= a {
            assert(is_space(s[a]));
        }
    }
}

/// Bounds of the trimmed part of `v`: `v[a..b]` is `v` without the white
/// space around it, and `a == b` when `v` is blank.
pub fn trim_bounds(v: &Vec<char>) -> (r: (usize, usize))
    ensures
        r.0 <= r.1 <= v.len(),
        v@.subrange(r.0 as int, r.1 as int) == trimmed(v@),
        (r.0 == r.1) == is_blank(v@),
{
    let n = v.len();
    let mut a: usize = 0;
    while a < n && char_is_space(v[a])
        invariant
            n == v.len(),
            a <= n,
            skip_spaces(v@, a as int) == skip_spaces(v@, 0),
        decreases n - a,
    {
        a += 1;
    }
    let mut b: usize = n;
    while b > a && char_is_space(v[b - 1])
        invariant
            n == v.len(),
            a <= b <= n,
            back_spaces(v@, b as int) == back_spaces(v@, n as int),
        decreases b,
    {
        b -= 1;
    }
    proof {
        lemma_blank_characterised(v@);
        lemma_skip_spaces_bounds(v@, 0);
        lemma_back_spaces_bounds(v@, n as int);
        lemma_back_spaces_bounds(v@, b as int);
        if a == b {
            assert(v@.subrange(a as int, b as int) =~= Seq::<char>::empty());
            if a < n {
                assert(!is_space(v@[a as int]));
            }
        }
    }
    (a, b)
}

/// `s` without the white space around it.
pub fn trim(s: &str) -> (r: String)
    ensures
        r@ == trimmed(s@),
{
    let v = chars_of(s);
    let (a, b) = trim_bounds(&v);
    string_of(&v, a, b)
}

/// Whether `s` holds nothing but white space.
pub fn blank(s: &str) -> (r: bool)
    ensures
        r == is_blank(s@),
{
    let mut all: bool = true;
    for c in it: s.chars()
        invariant
            it.seq() == s@,
            all == (forall|k: int| 0 <= k < it.index() ==> is_space(#[trigger] s@[k])),
    {
        if !char_is_space(c) {
            all = false;
        }
    }
    proof {
        lemma_blank_characterised(s@);
    }
    all
}

/// The parts, in order, with `sep` between each two neighbours.
pub open spec fn joined(parts: Seq<Seq<char>>, sep: Seq<char>) -> Seq<char>
    decreases parts.len(),
{
    if parts.len() == 0 {
        Seq::empty()
    } else if parts.len() == 1 {
        parts[0]
    } else {
        joined(parts.take(parts.len() - 1), sep) + sep + parts[parts.len() - 1]
    }
}

/// The views of the strings of a vector.
pub open spec fn views(v: Seq<String>) -> Seq<Seq<char>> {
    Seq::new(v.len(), |i: int| v[i]@)
}

/// Joins `parts` with `sep` between neighbours.
pub fn join(parts: &Vec<String>, sep: &str) -> (r: String)
    ensures
        r@ == joined(views(parts@), sep@),
{
    let mut out = String::new();
    let mut i: usize = 0;
    let ghost all = views(parts@);
    while i < parts.len()
        invariant
            i <= parts.len(),
            all == views(parts@),
            out@ == joined(all.take(i as int), sep@),
        decreases parts.len() - i,
    {
        if i > 0 {
            out.append(sep);
        }
        out.append(parts[i].as_str());
        proof {
            let next = all.take(i + 1);
            assert(next.take(next.len() - 1) =~= all.take(i as int));
            assert(next[next.len() - 1] == parts@[i as int]@);
            if i == 0 {
                assert(out@ =~= parts@[0]@);
            }
        }
        i += 1;
    }
    proof {
        assert(all.take(parts.len() as int) =~= all);
    }
    out
}

/// Whether `wanted` is among `items`.
pub fn contains_text(items: &Vec<String>, wanted: &str) -> (r: bool)
    ensures
        r == views(items@).contains(wanted@),
{
    let mut i: usize = 0;
    while i < items.len()
        invariant
            i <= items.len(),
            forall|k: int| 0 <= k < i ==> (#[trigger] items@[k])@ != wanted@,
        decreases items.len() - i,
    {
        if same_text(items[i].as_str(), wanted) {
            proof {
                assert(views(items@)[i as int] == wanted@);
            }
            return true;
        }
        i += 1;
    }
    proof {
        let all = views(items@);
        assert forall|k: int| 0 <= k < all.len() implies all[k] != wanted@ by {
            assert(all[k] == items@[k]@);
        }
    }
    false
}

/// The character that writes the digit `d`.
pub open spec fn digit_char(d: int) -> char {
    (('0' as u8) + d) as char
}

/// `n` written in decimal, without leading zeros.
pub open spec fn decimal(n: nat) -> Seq<char>
    decreases n,
{
    if n < 10 {
        seq![digit_char(n as int)]
    } else {
        decimal(n / 10).push(digit_char((n % 10) as int))
    }
}

/// Writes `n` in decimal.
pub fn decimal_string(n: usize) -> (r: String)
    ensures
        r@ == decimal(n as nat),
{
    let mut digits: Vec<char> = Vec::new();
    let mut rest: usize = n;
    while rest >= 10
        invariant
            decimal(n as nat) == decimal(rest as nat) + digits@.reverse(),
        decreases rest,
    {
        let d: u8 = (rest % 10) as u8;
        let c: char = (48u8 + d) as char;
        proof {
            let before = digits@;
            let after = before.push(c);
            assert(after.reverse() =~= seq![c] + before.reverse());
            assert(decimal(rest as nat) == decimal((rest / 10) as nat).push(c));
            assert(decimal((rest / 10) as nat).push(c) + before.reverse() =~= decimal(
                (rest / 10) as nat,
            ) + after.reverse());
        }
        digits.push(c);
        rest = rest / 10;
    }
    let c: char = (48u8 + rest as u8) as char;
    let mut out = String::new();
    out.push(c);
    let mut i: usize = digits.len();
    while i > 0
        invariant
            i <= digits.len(),
            out@ == seq![c] + digits@.reverse().take(digits.len() - i),
        decreases i,
    {
        i -= 1;
        out.push(digits[i]);
        proof {
            let rev = digits@.reverse();
            assert(rev.take(digits.len() - i) =~= rev.take(digits.len() - i - 1).push(
                digits@[i as int],
            ));
        }
    }
    proof {
        let rev = digits@.reverse();
        assert(rev.take(digits.len() as int) =~= rev);
    }
    out
}

/// The number that a run of decimal digits writes.
pub open spec fn digits_value(s: Seq<char>) -> nat
    decreases s.len(),
{
    if s.len() == 0 {
        0
    } else {
        digits_value(s.take(s.len() - 1)) * 10 + ((s[s.len() - 1] as u32) - ('0' as u32)) as nat
    }
}

/// Whether every character of `s` is an ASCII decimal digit.
pub open spec fn all_digits(s: Seq<char>) -> bool {
    forall|i: int| 0 <= i < s.len() ==> is_ascii_digit(#[trigger] s[i])
}

/// The number up to `limit` that `s` writes: an optional `+`, then one or
/// more decimal digits whose value does not pass the limit. Anything else
/// writes no number.
pub open spec fn parsed_number(s: Seq<char>, limit: usize) -> Option<usize> {
    let digits = if s.len() > 0 && s[0] == '+' {
        s.skip(1)
    } else {
        s
    };
    if digits.len() > 0 && all_digits(digits) && digits_value(digits) <= limit {
        Some(digits_value(digits) as usize)
    } else {
        None
    }
}

/// The index that `s` writes: a number that fits a `usize`.
pub open spec fn parsed_index(s: Seq<char>) -> Option<usize> {
    parsed_number(s, usize::MAX)
}

/// A longer run of digits never writes a smaller number than its prefix.
pub proof fn lemma_digits_value_grows(s: Seq<char>, k: int)
    requires
        0 <= k <= s.len(),
        all_digits(s),
    ensures
        digits_value(s.take(k)) <= digits_value(s),
    decreases s.len() - k,
{
    if k < s.len() {
        lemma_digits_value_grows(s, k + 1);
        let longer = s.take(k + 1);
        assert(longer.take(longer.len() - 1) =~= s.take(k));
        assert(is_ascii_digit(s[k]));
    } else {
        assert(s.take(k) =~= s);
    }
}

/// Reads the index that `v[from..]` writes.
pub fn parse_index(v: &Vec<char>, from: usize) -> (r: Option<usize>)
    requires
        from <= v.len(),
    ensures
        r == parsed_index(v@.skip(from as int)),
{
    parse_number(v, from, usize::MAX)
}

/// Reads the number up to `limit` that `v[from..]` writes.
pub fn parse_number(v: &Vec<char>, from: usize, limit: usize) -> (r: Option<usize>)
    requires
        from <= v.len(),
    ensures
        r == parsed_number(v@.skip(from as int), limit),
{
    let n = v.len();
    let mut i: usize = from;
    if i < n && v[i] == '+' {
        i += 1;
    }
    let start = i;
    let ghost digits = v@.skip(start as int);
    proof {
        let s = v@.skip(from as int);
        if s.len() > 0 && s[0] == '+' {
            assert(s.skip(1) =~= digits);
        }
    }
    if start == n {
        return None;
    }
    let ghost goal = parsed_number(v@.skip(from as int), limit);
    let mut acc: usize = 0;
    while i < n
        invariant
            from <= start <= i <= n,
            goal == parsed_number(v@.skip(from as int), limit),
            acc <= limit,
            goal == if all_digits(digits) && digits_value(digits) <= limit {
                Some(digits_value(digits) as usize)
            } else {
                None
            },
            n == v.len(),
            digits == v@.skip(start as int),
            all_digits(digits.take(i - start)),
            acc == digits_value(digits.take(i - start)),
        decreases n - i,
    {
        let c = v[i];
        let ghost longer = digits.take(i - start + 1);
        proof {
            assert(longer.take(longer.len() - 1) =~= digits.take(i - start));
            assert(longer[longer.len() - 1] == c);
        }
        if !char_is_digit(c) {
            proof {
                assert(digits[i - start] == c);
                assert(!all_digits(digits));
            }
            return None;
        }
        let d: usize = (c as u32 - '0' as u32) as usize;
        if d > limit || acc > (limit - d) / 10 {
            proof {
                assert(acc * 10 + d > limit);
                assert(digits_value(longer) == acc * 10 + d);
                if all_digits(digits) {
                    lemma_digits_value_grows(digits, i - start + 1);
                }
            }
            return None;
        }
        acc = acc * 10 + d;
        i += 1;
        proof {
            assert forall|k: int| 0 <= k < longer.len() implies is_ascii_digit(
                #[trigger] longer[k],
            ) by {
                if k < longer.len() - 1 {
                    assert(digits.take(i - start - 1)[k] == longer[k]);
                }
            }
        }
    }
    proof {
        assert(digits.take(n - start) =~= digits);
    }
    Some(acc)
}

/// The decimal form of a number is a run of digits that writes the number.
pub proof fn lemma_decimal_reads_back(n: nat)
    ensures
        decimal(n).len() > 0,
        all_digits(decimal(n)),
        digits_value(decimal(n)) == n,
    decreases n,
{
    let d = decimal(n);
    let last = digit_char((n % 10) as int);
    assert(last as u32 == 48 + n % 10);
    assert(d[d.len() - 1] == last);
    if n < 10 {
        assert(d.take(d.len() - 1) =~= Seq::<char>::empty());
        assert(digits_value(d.take(d.len() - 1)) == 0);
    } else {
        lemma_decimal_reads_back(n / 10);
        assert(d.take(d.len() - 1) =~= decimal(n / 10));
        assert forall|i: int| 0 <= i < d.len() implies is_ascii_digit(#[trigger] d[i]) by {
            if i < d.len() - 1 {
                assert(d[i] == decimal(n / 10)[i]);
            }
        }
    }
}

/// The first four characters of every column id.
pub open spec fn id_prefix() -> Seq<char> {
    seq!['c', 'o', 'l', '-']
}

/// The id of the column at position `n`.
pub open spec fn column_id(n: nat) -> Seq<char> {
    id_prefix() + decimal(n)
}

/// The position that a column id names, where it names one.
pub open spec fn column_index(id: Seq<char>) -> Option<usize> {
    if id_prefix().is_prefix_of(id) {
        parsed_index(id.skip(4))
    } else {
        None
    }
}

/// The id of a column names the column's position.
pub proof fn lemma_column_id_reads_back(n: usize)
    ensures
        column_index(column_id(n as nat)) == Some(n),
{
    lemma_decimal_reads_back(n as nat);
    let id = column_id(n as nat);
    assert(id.subrange(0, 4) =~= id_prefix());
    assert(id.skip(4) =~= decimal(n as nat));
    assert(is_ascii_digit(decimal(n as nat)[0]));
}

/// Writes the id of the column at position `n`.
pub fn make_column_id(n: usize) -> (r: String)
    ensures
        r@ == column_id(n as nat),
{
    let mut out = String::new();
    out.push('c');
    out.push('o');
    out.push('l');
    out.push('-');
    let digits = decimal_string(n);
    out.append(digits.as_str());
    proof {
        assert(out@ =~= id_prefix() + decimal(n as nat));
    }
    out
}

/// Reads the position that a column id names.
pub fn parse_column_id(id: &str) -> (r: Option<usize>)
    ensures
        r == column_index(id@),
{
    let v = chars_of(id);
    if v.len() >= 4 && v[0] == 'c' && v[1] == 'o' && v[2] == 'l' && v[3] == '-' {
        proof {
            assert(id_prefix() =~= v@.subrange(0, 4));
        }
        parse_index(&v, 4)
    } else {
        proof {
            if id_prefix().is_prefix_of(v@) {
                assert(v@[0] == id_prefix()[0]);
                assert(v@[1] == id_prefix()[1]);
                assert(v@[2] == id_prefix()[2]);
                assert(v@[3] == id_prefix()[3]);
            }
        }
        None
    }
}

/// What `str::to_lowercase` makes of a string: its lowercase form by the
/// Unicode case mappings.
pub uninterp spec fn lowercase(s: Seq<char>) -> Seq<char>;

/// What `str::to_uppercase` makes of a string: its uppercase form by the
/// Unicode case mappings.
pub uninterp spec fn uppercase(s: Seq<char>) -> Seq<char>;

/// `str::to_lowercase` returns the lowercase form of the string. The form
/// is a function of the characters alone; it is named, not spelled out.
pub assume_specification[ str::to_lowercase ](s: &str) -> (r: String)
    ensures
        r@ == lowercase(s@),
;

/// `str::to_uppercase` returns the uppercase form of the string. The form
/// is a function of the characters alone; it is named, not spelled out.
pub assume_specification[ str::to_uppercase ](s: &str) -> (r: String)
    ensures
        r@ == uppercase(s@),
;

/// Whether `p` stands in `s` at position `i`.
pub open spec fn occurs_at(s: Seq<char>, p: Seq<char>, i: int) -> bool {
    0 <= i && i + p.len() <= s.len() && s.subrange(i, i + p.len()) == p
}

/// Whether `s` starts with `p`.
pub open spec fn has_prefix(s: Seq<char>, p: Seq<char>) -> bool {
    occurs_at(s, p, 0)
}

/// Whether `s` ends with `p`.
pub open spec fn has_suffix(s: Seq<char>, p: Seq<char>) -> bool {
    occurs_at(s, p, s.len() - p.len())
}

/// Whether `p` stands somewhere in `s`.
pub open spec fn has_part(s: Seq<char>, p: Seq<char>) -> bool {
    exists|i: int| occurs_at(s, p, i)
}

/// Decides whether `p` stands in `s` at position `i`.
pub fn occurs(s: &Vec<char>, p: &Vec<char>, i: usize) -> (r: bool)
    ensures
        r == occurs_at(s@, p@, i as int),
{
    if p.len() > s.len() || i > s.len() - p.len() {
        return false;
    }
    let mut k: usize = 0;
    while k < p.len()
        invariant
            k <= p.len(),
            i + p.len() <= s.len(),
            forall|x: int| 0 <= x < k ==> s@[i + x] == p@[x],
        decreases p.len() - k,
    {
        if s[i + k] != p[k] {
            proof {
                assert(s@.subrange(i as int, i + p.len())[k as int] == s@[i + k]);
            }
            return false;
        }
        k += 1;
    }
    proof {
        assert(s@.subrange(i as int, i + p.len()) =~= p@);
    }
    true
}

/// Decides whether `s` starts with `p`.
pub fn starts_with(s: &Vec<char>, p: &Vec<char>) -> (r: bool)
    ensures
        r == has_prefix(s@, p@),
{
    occurs(s, p, 0)
}

/// Decides whether `s` ends with `p`.
pub fn ends_with(s: &Vec<char>, p: &Vec<char>) -> (r: bool)
    ensures
        r == has_suffix(s@, p@),
{
    if p.len() > s.len() {
        return false;
    }
    occurs(s, p, s.len() - p.len())
}

/// Decides whether `p` stands somewhere in `s`.
pub fn contains(s: &Vec<char>, p: &Vec<char>) -> (r: bool)
    ensures
        r == has_part(s@, p@),
{
    if p.len() > s.len() {
        return false;
    }
    let last = s.len() - p.len();
    let mut i: usize = 0;
    while i < last
        invariant
            i <= last,
            last == s.len() - p.len(),
            forall|x: int| 0 <= x < i ==> !occurs_at(s@, p@, x),
        decreases last - i,
    {
        if occurs(s, p, i) {
            return true;
        }
        i += 1;
    }
    occurs(s, p, last)
}

/// Whether `s` starts with the text `p`.
pub fn text_starts_with(s: &str, p: &str) -> (r: bool)
    ensures
        r == has_prefix(s@, p@),
{
    starts_with(&chars_of(s), &chars_of(p))
}

/// Whether `s` ends with the text `p`.
pub fn text_ends_with(s: &str, p: &str) -> (r: bool)
    ensures
        r == has_suffix(s@, p@),
{
    ends_with(&chars_of(s), &chars_of(p))
}

/// Whether the text `p` stands somewhere in `s`.
pub fn text_contains(s: &str, p: &str) -> (r: bool)
    ensures
        r == has_part(s@, p@),
{
    contains(&chars_of(s), &chars_of(p))
}

/// Whether the character `c` stands somewhere in `s`.
pub fn text_has_char(s: &str, c: char) -> (r: bool)
    ensures
        r == s@.contains(c),
{
    let mut found: bool = false;
    for x in it: s.chars()
        invariant
            it.seq() == s@,
            found == (exists|k: int| 0 <= k < it.index() && s@[k] == c),
    {
        if x == c {
            found = true;
        }
    }
    found
}

/// `s` without its white space, wherever it stands.
pub open spec fn without_spaces(s: Seq<char>) -> Seq<char> {
    s.filter(|c: char| !is_space(c))
}

/// Removes every white-space character from `s`.
pub fn strip_spaces(s: &str) -> (r: String)
    ensures
        r@ == without_spaces(s@),
{
    let mut out = String::new();
    let ghost keep = |c: char| !is_space(c);
    proof {
        reveal(Seq::filter);
        assert(s@.take(0).filter(keep) =~= Seq::<char>::empty());
    }
    for c in it: s.chars()
        invariant
            it.seq() == s@,
            keep == (|c: char| !is_space(c)),
            out@ == s@.take(it.index() as int).filter(keep),
    {
        proof {
            reveal(Seq::filter);
            let next = s@.take(it.index() + 1);
            assert(next.drop_last() =~= s@.take(it.index() as int));
            assert(next.last() == c);
        }
        if !char_is_space(c) {
            out.push(c);
        }
    }
    proof {
        assert(s@.take(s@.len() as int) =~= s@);
    }
    out
}

/// The round brackets, narrow and wide.
pub open spec fn is_bracket(c: char) -> bool {
    c == '(' || c == ')' || c == '\u{FF08}' || c == '\u{FF09}'
}

/// The narrow form of a wide character: the ideographic space becomes a
/// space, the wide forms of the printable ASCII characters become those
/// characters, and every other character stays.
pub open spec fn halfwidth(c: char) -> char {
    if c == '\u{3000}' {
        ' '
    } else if '\u{FF01}' <= c <= '\u{FF5E}' {
        (((c as u32) - 0xFEE0) as u8) as char
    } else {
        c
    }
}

/// `s` without round brackets and with every wide character narrowed.
pub open spec fn cleansed(s: Seq<char>) -> Seq<char> {
    s.filter(|c: char| !is_bracket(c)).map_values(|c: char| halfwidth(c))
}

/// Narrows one character.
pub fn fullwidth_to_halfwidth(c: char) -> (r: char)
    ensures
        r == halfwidth(c),
{
    if c == '\u{3000}' {
        ' '
    } else if '\u{FF01}' <= c && c <= '\u{FF5E}' {
        ((c as u32 - 0xFEE0) as u8) as char
    } else {
        c
    }
}

/// Removes the round brackets from `input` and narrows its wide characters.
pub fn cleanse_string(input: &str) -> (r: String)
    ensures
        r@ == cleansed(input@),
{
    let mut out = String::new();
    let ghost keep = |c: char| !is_bracket(c);
    let ghost narrow = |c: char| halfwidth(c);
    proof {
        reveal(Seq::filter);
        assert(input@.take(0).filter(keep).map_values(narrow) =~= Seq::<char>::empty());
    }
    for c in it: input.chars()
        invariant
            it.seq() == input@,
            keep == (|c: char| !is_bracket(c)),
            narrow == (|c: char| halfwidth(c)),
            out@ == input@.take(it.index() as int).filter(keep).map_values(narrow),
    {
        let ghost before = input@.take(it.index() as int);
        proof {
            reveal(Seq::filter);
            let next = input@.take(it.index() + 1);
            assert(next.drop_last() =~= before);
            assert(next.last() == c);
        }
        if !(c == '(' || c == ')' || c == '\u{FF08}' || c == '\u{FF09}') {
            out.push(fullwidth_to_halfwidth(c));
            proof {
                assert(before.filter(keep).push(c).map_values(narrow) =~= before.filter(
                    keep,
                ).map_values(narrow).push(halfwidth(c)));
            }
        }
    }
    proof {
        assert(input@.take(input@.len() as int) =~= input@);
    }
    out
}

/// Whether a text says yes: trimmed and in lowercase it is one of `true`,
/// `1`, `yes`, `y`, `on`, `はい`, `有効`.
pub open spec fn says_yes(value: Seq<char>) -> bool {
    let n = lowercase(trimmed(value));
    ||| n == "true"@
    ||| n == "1"@
    ||| n == "yes"@
    ||| n == "y"@
    ||| n == "on"@
    ||| n == "はい"@
    ||| n == "有効"@
}

/// Decides whether a text says yes.
pub fn is_truthy(value: &str) -> (r: bool)
    ensures
        r == says_yes(value@),
{
    let bare = trim(value);
    let lowered = bare.as_str().to_lowercase();
    let n = lowered.as_str();
    same_text(n, "true") || same_text(n, "1") || same_text(n, "yes") || same_text(n, "y")
        || same_text(n, "on") || same_text(n, "はい") || same_text(n, "有効")
}

/// The characters that no cell should hold: the control characters, but
/// for the tab.
pub open spec fn is_invalid_char(c: char) -> bool {
    let u = c as u32;
    (u < 0x20 && u != 0x09) || 0x7F <= u <= 0x9F
}

/// The first invalid character of `s`, if it has one.
pub open spec fn first_invalid(s: Seq<char>) -> Option<char>
    decreases s.len(),
{
    if s.len() == 0 {
        None
    } else {
        match first_invalid(s.take(s.len() - 1)) {
            Some(c) => Some(c),
            None => if is_invalid_char(s[s.len() - 1]) {
                Some(s[s.len() - 1])
            } else {
                None
            },
        }
    }
}

/// Finds the first invalid character of a cell.
pub fn find_invalid_char(cell: &str) -> (r: Option<char>)
    ensures
        r == first_invalid(cell@),
{
    let mut found: Option<char> = None;
    for c in it: cell.chars()
        invariant
            it.seq() == cell@,
            found == first_invalid(cell@.take(it.index() as int)),
    {
        proof {
            let next = cell@.take(it.index() + 1);
            assert(next.take(next.len() - 1) =~= cell@.take(it.index() as int));
            assert(next[next.len() - 1] == c);
        }
        if found.is_none() {
            let u: u32 = c as u32;
            if (u < 0x20 && u != 0x09) || (0x7F <= u && u <= 0x9F) {
                found = Some(c);
            }
        }
    }
    proof {
        assert(cell@.take(cell@.len() as int) =~= cell@);
    }
    found
}

/// The hexadecimal digits, in either case.
pub open spec fn is_hex_digit(c: char) -> bool {
    is_ascii_digit(c) || 'a' <= c <= 'f' || 'A' <= c <= 'F'
}

/// The name under which a colour is looked up: trimmed and in lowercase,
/// with `#` put before six hexadecimal digits.
pub open spec fn color_name(value: Seq<char>) -> Seq<char> {
    let n = lowercase(trimmed(value));
    if n.len() == 6 && (forall|i: int| 0 <= i < n.len() ==> is_hex_digit(#[trigger] n[i])) {
        seq!['#'] + n
    } else {
        n
    }
}

/// The status that a cell colour stands for.
pub open spec fn status_of_color(value: Seq<char>) -> Option<Seq<char>> {
    let n = color_name(value);
    if n == "#ff0000"@ || n == "#ff4d4f"@ || n == "red"@ {
        Some("removed"@)
    } else if n == "#00b894"@ || n == "#00ff00"@ || n == "green"@ {
        Some("added"@)
    } else if n == "#ffa500"@ || n == "#ffb347"@ || n == "orange"@ {
        Some("modified"@)
    } else if n == "#808080"@ || n == "#a9a9a9"@ || n == "gray"@ || n == "grey"@ {
        Some("unchanged"@)
    } else {
        None
    }
}

/// Reads the status that a cell colour stands for.
pub fn color_to_status(value: &str) -> (r: Option<&'static str>)
    ensures
        match r {
            Some(status) => status_of_color(value@) == Some(status@),
            None => status_of_color(value@) is None,
        },
{
    let bare = trim(value);
    let lowered = bare.as_str().to_lowercase();
    let v = chars_of(lowered.as_str());
    let mut all_hex: bool = true;
    let mut i: usize = 0;
    while i < v.len()
        invariant
            i <= v.len(),
            all_hex == (forall|k: int| 0 <= k < i ==> is_hex_digit(#[trigger] v@[k])),
        decreases v.len() - i,
    {
        let c = v[i];
        if !(char_is_digit(c) || ('a' <= c && c <= 'f') || ('A' <= c && c <= 'F')) {
            all_hex = false;
        }
        i += 1;
    }
    let name = if v.len() == 6 && all_hex {
        let mut with_hash = String::new();
        with_hash.push('#');
        with_hash.append(lowered.as_str());
        with_hash
    } else {
        lowered
    };
    let n = name.as_str();
    if same_text(n, "#ff0000") || same_text(n, "#ff4d4f") || same_text(n, "red") {
        Some("removed")
    } else if same_text(n, "#00b894") || same_text(n, "#00ff00") || same_text(n, "green") {
        Some("added")
    } else if same_text(n, "#ffa500") || same_text(n, "#ffb347") || same_text(n, "orange") {
        Some("modified")
    } else if same_text(n, "#808080") || same_text(n, "#a9a9a9") || same_text(n, "gray")
        || same_text(n, "grey") {
        Some("unchanged")
    } else {
        None
    }
}

/// `acc`, then each of `ids` that is not in it yet.
pub open spec fn extended(acc: Seq<Seq<char>>, ids: Seq<Seq<char>>) -> Seq<Seq<char>>
    decreases ids.len(),
{
    if ids.len() == 0 {
        acc
    } else {
        let before = extended(acc, ids.take(ids.len() - 1));
        let id = ids[ids.len() - 1];
        if before.contains(id) {
            before
        } else {
            before.push(id)
        }
    }
}

/// Appends to `acc` each of `ids` that is not in it yet.
pub fn extend_unique(acc: &mut Vec<String>, ids: &Vec<String>)
    ensures
        views(final(acc)@) == extended(views(old(acc)@), views(ids@)),
{
    let ghost start = views(acc@);
    let ghost sids = views(ids@);
    let mut k: usize = 0;
    while k < ids.len()
        invariant
            k <= ids.len(),
            sids == views(ids@),
            views(acc@) == extended(start, sids.take(k as int)),
        decreases ids.len() - k,
    {
        proof {
            let next = sids.take(k + 1);
            assert(next.take(next.len() - 1) =~= sids.take(k as int));
            assert(next[next.len() - 1] == ids@[k as int]@);
        }
        if !contains_text(acc, ids[k].as_str()) {
            let ghost before = views(acc@);
            acc.push(ids[k].clone());
            proof {
                assert(views(acc@) =~= before.push(ids@[k as int]@));
            }
        }
        k += 1;
    }
    proof {
        assert(sids.take(ids.len() as int) =~= sids);
    }
}

/// The pieces into which the characters of `marks` cut `s`: one more than
/// there are marks in `s`, some of them possibly empty.
pub open spec fn pieces(s: Seq<char>, marks: Seq<char>) -> Seq<Seq<char>>
    decreases s.len(),
{
    if s.len() == 0 {
        seq![Seq::empty()]
    } else {
        let front = pieces(s.take(s.len() - 1), marks);
        let c = s[s.len() - 1];
        if marks.contains(c) {
            front.push(Seq::empty())
        } else {
            front.update(front.len() - 1, front[front.len() - 1].push(c))
        }
    }
}

/// There is always at least one piece.
pub proof fn lemma_pieces_not_empty(s: Seq<char>, marks: Seq<char>)
    ensures
        pieces(s, marks).len() > 0,
    decreases s.len(),
{
    if s.len() > 0 {
        lemma_pieces_not_empty(s.take(s.len() - 1), marks);
    }
}

/// Whether `c` is among `marks`.
pub fn is_among(marks: &Vec<char>, c: char) -> (r: bool)
    ensures
        r == marks@.contains(c),
{
    let mut i: usize = 0;
    while i < marks.len()
        invariant
            i <= marks.len(),
            forall|k: int| 0 <= k < i ==> marks@[k] != c,
        decreases marks.len() - i,
    {
        if marks[i] == c {
            return true;
        }
        i += 1;
    }
    false
}

/// Cuts `v` at every character that is among `marks`.
pub fn split_on(v: &Vec<char>, marks: &Vec<char>) -> (r: Vec<Vec<char>>)
    ensures
        r@.len() == pieces(v@, marks@).len(),
        forall|k: int| 0 <= k < r@.len() ==> (#[trigger] r@[k])@ == pieces(v@, marks@)[k],
{
    let mut done: Vec<Vec<char>> = Vec::new();
    let mut current: Vec<char> = Vec::new();
    let mut i: usize = 0;
    while i < v.len()
        invariant
            i <= v.len(),
            pieces(v@.take(i as int), marks@).len() == done.len() + 1,
            forall|k: int|
                0 <= k < done@.len() ==> (#[trigger] done@[k])@ == pieces(
                    v@.take(i as int),
                    marks@,
                )[k],
            current@ == pieces(v@.take(i as int), marks@)[done.len() as int],
        decreases v.len() - i,
    {
        proof {
            let next = v@.take(i + 1);
            assert(next.take(next.len() - 1) =~= v@.take(i as int));
        }
        let c = v[i];
        if is_among(marks, c) {
            done.push(current);
            current = Vec::new();
        } else {
            current.push(c);
        }
        i += 1;
    }
    proof {
        assert(v@.take(v.len() as int) =~= v@);
    }
    done.push(current);
    done
}

/// Whether `a` comes before `b` from position `i` on, given that they
/// agree before it: at the first position where they differ `a` has the
/// smaller character, or `a` ends there and `b` goes on.
pub open spec fn less_from(a: Seq<char>, b: Seq<char>, i: int) -> bool
    decreases a.len() - i,
{
    if i >= b.len() {
        false
    } else if i >= a.len() {
        true
    } else if a[i] != b[i] {
        a[i] < b[i]
    } else {
        less_from(a, b, i + 1)
    }
}

/// Whether `a` comes before `b` in the order of strings: character by
/// character, by code point.
pub open spec fn text_less(a: Seq<char>, b: Seq<char>) -> bool {
    less_from(a, b, 0)
}

/// The order of strings is transitive.
pub proof fn lemma_less_transitive(a: Seq<char>, b: Seq<char>, c: Seq<char>, i: int)
    requires
        0 <= i,
        less_from(a, b, i),
        less_from(b, c, i),
    ensures
        less_from(a, c, i),
    decreases a.len() - i,
{
    if i < a.len() && i < b.len() && i < c.len() && a[i] == b[i] && b[i] == c[i] {
        lemma_less_transitive(a, b, c, i + 1);
    }
}

/// No string comes before itself, and of two strings at most one comes
/// before the other.
pub proof fn lemma_less_asymmetric(a: Seq<char>, b: Seq<char>, i: int)
    requires
        0 <= i,
        less_from(a, b, i),
    ensures
        !less_from(b, a, i),
        a != b,
    decreases a.len() - i,
{
    if i < a.len() && i < b.len() && a[i] == b[i] {
        lemma_less_asymmetric(a, b, i + 1);
    }
}

/// Of two different strings one comes before the other.
pub proof fn lemma_less_total(a: Seq<char>, b: Seq<char>, i: int)
    requires
        0 <= i,
        forall|k: int| 0 <= k < i && k < a.len() && k < b.len() ==> a[k] == b[k],
        i <= a.len(),
        i <= b.len(),
        a != b,
    ensures
        less_from(a, b, i) || less_from(b, a, i),
    decreases a.len() - i,
{
    if i < a.len() && i < b.len() {
        if a[i] == b[i] {
            lemma_less_total(a, b, i + 1);
        }
    } else if i >= a.len() && i >= b.len() {
        assert(a =~= b);
    }
}

/// Decides whether `a` comes before `b` in the order of strings.
pub fn text_before(a: &Vec<char>, b: &Vec<char>) -> (r: bool)
    ensures
        r == text_less(a@, b@),
{
    let mut i: usize = 0;
    while i < a.len() && i < b.len()
        invariant
            i <= a.len(),
            i <= b.len(),
            less_from(a@, b@, i as int) == less_from(a@, b@, 0),
        decreases a.len() - i,
    {
        if a[i] != b[i] {
            return a[i] < b[i];
        }
        i += 1;
    }
    i < b.len()
}

/// `s` without its spaces.
pub open spec fn without_blanks(s: Seq<char>) -> Seq<char> {
    s.filter(|c: char| c != ' ')
}

/// Removes the spaces from `s`.
pub fn strip_blanks(s: &str) -> (r: String)
    ensures
        r@ == without_blanks(s@),
{
    let mut out = String::new();
    let ghost keep = |c: char| c != ' ';
    proof {
        reveal(Seq::filter);
        assert(s@.take(0).filter(keep) =~= Seq::<char>::empty());
    }
    for c in it: s.chars()
        invariant
            it.seq() == s@,
            keep == (|c: char| c != ' '),
            out@ == s@.take(it.index() as int).filter(keep),
    {
        proof {
            reveal(Seq::filter);
            let next = s@.take(it.index() + 1);
            assert(next.drop_last() =~= s@.take(it.index() as int));
            assert(next.last() == c);
        }
        if c != ' ' {
            out.push(c);
        }
    }
    proof {
        assert(s@.take(s@.len() as int) =~= s@);
    }
    out
}

/// The mark that ends a line.
pub open spec fn line_break() -> Seq<char> {
    seq!['\n']
}

/// The lines of a text: what stands between its line breaks. A line break
/// at the very end opens no further line.
pub open spec fn lines_of(s: Seq<char>) -> Seq<Seq<char>> {
    let parts = pieces(s, line_break());
    if parts[parts.len() - 1].len() == 0 {
        parts.take(parts.len() - 1)
    } else {
        parts
    }
}

/// Cuts a text into its lines.
pub fn split_lines(s: &str) -> (r: Vec<Vec<char>>)
    ensures
        r@.len() == lines_of(s@).len(),
        forall|k: int| 0 <= k < r@.len() ==> (#[trigger] r@[k])@ == lines_of(s@)[k],
{
    let v = chars_of(s);
    let mut marks: Vec<char> = Vec::new();
    marks.push('\n');
    proof {
        assert(marks@ =~= line_break());
        lemma_pieces_not_empty(s@, line_break());
    }
    let mut parts = split_on(&v, &marks);
    if parts[parts.len() - 1].len() == 0 {
        parts.pop();
    }
    parts
}

/// The words found in the first `n` characters of `s`, and the run of
/// characters that may still become one: a word is a run of characters
/// that are not white space, with white space or an end of the text on
/// either side.
pub open spec fn word_scan(s: Seq<char>, n: int) -> (Seq<Seq<char>>, Seq<char>)
    decreases n,
{
    if n <= 0 {
        (Seq::empty(), Seq::empty())
    } else {
        let (done, run) = word_scan(s, n - 1);
        let c = s[n - 1];
        if !is_space(c) {
            (done, run.push(c))
        } else if run.len() > 0 {
            (done.push(run), Seq::empty())
        } else {
            (done, run)
        }
    }
}

/// The words of a text, in order.
pub open spec fn words(s: Seq<char>) -> Seq<Seq<char>> {
    let (done, run) = word_scan(s, s.len() as int);
    if run.len() > 0 {
        done.push(run)
    } else {
        done
    }
}

/// Cuts `v` into its words.
pub fn split_words(v: &Vec<char>) -> (r: Vec<String>)
    ensures
        views(r@) == words(v@),
{
    let mut done: Vec<String> = Vec::new();
    let mut start: usize = 0;
    let mut i: usize = 0;
    proof {
        assert(views(done@) =~= word_scan(v@, 0).0);
        assert(v@.subrange(0, 0) =~= word_scan(v@, 0).1);
    }
    while i < v.len()
        invariant
            start <= i <= v.len(),
            views(done@) == word_scan(v@, i as int).0,
            v@.subrange(start as int, i as int) == word_scan(v@, i as int).1,
        decreases v.len() - i,
    {
        let ghost before = views(done@);
        if char_is_space(v[i]) {
            if start < i {
                done.push(string_of(v, start, i));
                proof {
                    assert(views(done@) =~= before.push(v@.subrange(start as int, i as int)));
                }
            }
            start = i + 1;
            proof {
                assert(v@.subrange(start as int, i + 1) =~= Seq::<char>::empty());
            }
        } else {
            proof {
                assert(v@.subrange(start as int, i + 1) =~= v@.subrange(
                    start as int,
                    i as int,
                ).push(v@[i as int]));
            }
        }
        i += 1;
    }
    if start < i {
        let ghost before = views(done@);
        done.push(string_of(v, start, i));
        proof {
            assert(views(done@) =~= before.push(v@.subrange(start as int, i as int)));
        }
    }
    done
}

/// The first position at or after `from` at which `p` stands in `s`.
pub open spec fn found_at(s: Seq<char>, p: Seq<char>, from: int, at: int) -> bool {
    &&& from <= at
    &&& occurs_at(s, p, at)
    &&& forall|k: int| from <= k < at ==> !occurs_at(s, p, k)
}

/// Finds the first position at or after `from` at which `p` stands in `s`.
pub fn find_from(s: &Vec<char>, p: &Vec<char>, from: usize) -> (r: Option<usize>)
    ensures
        match r {
            Some(at) => found_at(s@, p@, from as int, at as int),
            None => forall|k: int| from <= k ==> !occurs_at(s@, p@, k),
        },
{
    if p.len() > s.len() || from > s.len() - p.len() {
        return None;
    }
    let last = s.len() - p.len();
    let mut i: usize = from;
    while i < last
        invariant
            from <= i <= last,
            last == s.len() - p.len(),
            forall|k: int| from <= k < i ==> !occurs_at(s@, p@, k),
        decreases last - i,
    {
        if occurs(s, p, i) {
            return Some(i);
        }
        i += 1;
    }
    if occurs(s, p, last) {
        Some(last)
    } else {
        None
    }
}

/// The position of the first `c` among the first `n` characters of `s`.
pub open spec fn first_char(s: Seq<char>, c: char, n: int) -> Option<int>
    decreases n,
{
    if n <= 0 {
        None
    } else {
        match first_char(s, c, n - 1) {
            Some(i) => Some(i),
            None => if s[n - 1] == c {
                Some(n - 1)
            } else {
                None
            },
        }
    }
}

/// The position of the first `c` in `s`.
pub open spec fn char_position(s: Seq<char>, c: char) -> Option<int> {
    first_char(s, c, s.len() as int)
}

/// A character that stands at `i`, with none before it, is the first.
pub proof fn lemma_first_char_found(s: Seq<char>, c: char, i: int, n: int)
    requires
        0 <= i < n,
        first_char(s, c, i) is None,
        s[i] == c,
    ensures
        first_char(s, c, n) == Some(i),
    decreases n - i,
{
    if n > i + 1 {
        lemma_first_char_found(s, c, i, n - 1);
    }
}

/// Finds the first `c` in `v`.
pub fn find_char(v: &Vec<char>, c: char) -> (r: Option<usize>)
    ensures
        match r {
            Some(i) => i < v.len() && char_position(v@, c) == Some(i as int),
            None => char_position(v@, c) is None,
        },
{
    let mut i: usize = 0;
    while i < v.len()
        invariant
            i <= v.len(),
            first_char(v@, c, i as int) is None,
        decreases v.len() - i,
    {
        if v[i] == c {
            proof {
                lemma_first_char_found(v@, c, i as int, v.len() as int);
            }
            return Some(i);
        }
        i += 1;
    }
    None
}

/// The mark between the designators of a list.
pub open spec fn comma() -> Seq<char> {
    seq![',']
}

/// Those of the first `n` parts that are not blank, trimmed, in order.
pub open spec fn solid_parts(parts: Seq<Seq<char>>, n: int) -> Seq<Seq<char>>
    decreases n,
{
    if n <= 0 {
        Seq::empty()
    } else {
        let before = solid_parts(parts, n - 1);
        if is_blank(parts[n - 1]) {
            before
        } else {
            before.push(trimmed(parts[n - 1]))
        }
    }
}

/// The designators that a key lists: what stands between its commas,
/// trimmed, without the empty parts.
pub open spec fn listed(key: Seq<char>) -> Seq<Seq<char>> {
    solid_parts(pieces(key, comma()), pieces(key, comma()).len() as int)
}

/// Reads the designators that a key lists.
pub fn list_references(key: &str) -> (r: Vec<String>)
    ensures
        views(r@) == listed(key@),
{
    let v = chars_of(key);
    let mut marks: Vec<char> = Vec::new();
    marks.push(',');
    proof {
        assert(marks@ =~= comma());
    }
    let parts = split_on(&v, &marks);
    let ghost sp = pieces(key@, comma());
    let mut out: Vec<String> = Vec::new();
    proof {
        assert(views(out@) =~= solid_parts(sp, 0));
    }
    let mut k: usize = 0;
    while k < parts.len()
        invariant
            k <= parts.len(),
            sp == pieces(key@, comma()),
            parts@.len() == sp.len(),
            forall|x: int| 0 <= x < parts@.len() ==> (#[trigger] parts@[x])@ == sp[x],
            views(out@) == solid_parts(sp, k as int),
        decreases parts.len() - k,
    {
        let (a, b) = trim_bounds(&parts[k]);
        proof {
            assert(parts@[k as int]@ == sp[k as int]);
        }
        if a < b {
            let ghost before = views(out@);
            out.push(string_of(&parts[k], a, b));
            proof {
                assert(views(out@) =~= before.push(trimmed(sp[k as int])));
            }
        }
        k += 1;
    }
    out
}

/// `s` without the run of `c` at its end.
pub open spec fn without_trailing(s: Seq<char>, c: char) -> Seq<char>
    decreases s.len(),
{
    if s.len() > 0 && s[s.len() - 1] == c {
        without_trailing(s.take(s.len() - 1), c)
    } else {
        s
    }
}

/// Where `v` ends once the run of `c` at its end is left out.
pub fn trailing_start(v: &Vec<char>, c: char) -> (r: usize)
    ensures
        r <= v.len(),
        v@.take(r as int) == without_trailing(v@, c),
{
    let mut n: usize = v.len();
    proof {
        assert(v@.take(n as int) =~= v@);
    }
    while n > 0 && v[n - 1] == c
        invariant
            n <= v.len(),
            without_trailing(v@.take(n as int), c) == without_trailing(v@, c),
        decreases n,
    {
        proof {
            assert(v@.take(n as int).take(n - 1) =~= v@.take(n - 1));
        }
        n -= 1;
    }
    n
}

/// The characters `v[from..to]`.
pub fn slice_of(v: &Vec<char>, from: usize, to: usize) -> (r: Vec<char>)
    requires
        from <= to <= v.len(),
    ensures
        r@ == v@.subrange(from as int, to as int),
{
    let mut out: Vec<char> = Vec::new();
    let mut i: usize = from;
    while i < to
        invariant
            from <= i <= to <= v.len(),
            out@ == v@.subrange(from as int, i as int),
        decreases to - i,
    {
        out.push(v[i]);
        i += 1;
    }
    out
}

/// Whether the text `part` stands in `v`.
pub fn holds(v: &Vec<char>, part: &str) -> (r: bool)
    ensures
        r == has_part(v@, part@),
{
    contains(v, &chars_of(part))
}

/// Whether `v` starts with the text `part`.
pub fn begins(v: &Vec<char>, part: &str) -> (r: bool)
    ensures
        r == has_prefix(v@, part@),
{
    starts_with(v, &chars_of(part))
}

} // verus!
