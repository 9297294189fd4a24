//! Text: decimal numerals, white space, case, and building strings.
use vstd::prelude::*;
use vstd::string::*;

verus! {

/// `String::push`: appends one character at the end and leaves the rest as it is.
pub assume_specification[ String::push ](s: &mut String, c: char)
    ensures
        final(s)@ == old(s)@.push(c),
;

/// `char::from_u32`: a number that is a Unicode scalar value (up to
/// `0x10ffff`, surrogates excepted) gives its character, any other gives none.
pub assume_specification[ char::from_u32 ](i: u32) -> (r: Option<char>)
    ensures
        r == (if i <= 0x10ffff && !(0xd800 <= i <= 0xdfff) {
            Some(i as char)
        } else {
            None
        }),
;

/// The texts that a list of strings holds.
pub open spec fn texts(strings: Seq<String>) -> Seq<Seq<char>> {
    Seq::new(strings.len(), |i: int| strings[i]@)
}

/// The decimal digit of `d`.
pub open spec fn digit_char(d: nat) -> char
    recommends
        d < 10,
{
    (48 + d) as char
}

/// The decimal numeral of `n`, without leading zeros.
pub open spec fn decimal(n: nat) -> Seq<char>
    decreases n,
{
    if n < 10 {
        seq![digit_char(n)]
    } else {
        decimal(n / 10).push(digit_char(n % 10))
    }
}

/// The numeral of `n`, filled with zeros on the left up to `width` characters.
pub open spec fn zero_padded(n: nat, width: nat) -> Seq<char> {
    let d = decimal(n);
    if d.len() < width {
        run_of('0', (width - d.len()) as nat) + d
    } else {
        d
    }
}

/// The characters of a string, in order.
pub fn chars_of(s: &str) -> (r: Vec<char>)
    ensures
        r@ == s@,
{
    let mut out: Vec<char> = Vec::new();
    for c in it: s.chars()
        invariant
            out@ == s@.take(it.index() as int),
            it.seq() == s@,
    {
        out.push(c);
        assert(s@.take(it.index() + 1) == s@.take(it.index() as int).push(c));
    }
    assert(s@.take(s@.len() as int) == s@);
    out
}

/// The string of a sequence of characters.
pub fn string_of(cs: &Vec<char>) -> (r: String)
    ensures
        r@ == cs@,
{
    let mut out: String = String::new();
    let mut i: usize = 0;
    while i < cs.len()
        invariant
            i <= cs.len(),
            out@ == cs@.take(i as int),
        decreases cs.len() - i,
    {
        out.push(cs[i]);
        assert(cs@.take(i + 1) == cs@.take(i as int).push(cs@[i as int]));
        i = i + 1;
    }
    assert(cs@.take(cs@.len() as int) == cs@);
    out
}

fn digit_of(d: u64) -> (c: char)
    requires
        d < 10,
    ensures
        c == digit_char(d as nat),
{
    (48u8 + d as u8) as char
}

/// The decimal numeral of `n`.
pub fn decimal_text(n: u64) -> (r: String)
    ensures
        r@ == decimal(n as nat),
    decreases n,
{
    if n < 10 {
        let mut out: String = String::new();
        out.push(digit_of(n));
        out
    } else {
        let mut out: String = decimal_text(n / 10);
        out.push(digit_of(n % 10));
        out
    }
}

/// The numeral of `n`, filled with zeros on the left up to `width` characters.
pub fn padded_text(n: u64, width: usize) -> (r: String)
    ensures
        r@ == zero_padded(n as nat, width as nat),
{
    let digits = decimal_text(n);
    let len: usize = chars_of(digits.as_str()).len();
    let mut out: String = String::new();
    if len < width {
        push_run(&mut out, '0', width - len);
    }
    assert(out@ == run_of('0', (if len < width { width - len } else { 0 }) as nat));
    out.append(digits.as_str());
    out
}

/// A signed numeral filled with zeros up to `width` characters, its sign among
/// them.
pub open spec fn signed_padded(n: int, width: nat) -> Seq<char> {
    if n < 0 {
        seq!['-'] + zero_padded(
            (-n) as nat,
            if width > 0 {
                (width - 1) as nat
            } else {
                0
            },
        )
    } else {
        zero_padded(n as nat, width)
    }
}

/// A signed numeral filled with zeros up to `width` characters.
pub fn signed_padded_text(n: i64, width: usize) -> (r: String)
    ensures
        r@ == signed_padded(n as int, width as nat),
{
    if n < 0 {
        let m: u64 = (-(n as i128)) as u64;
        let digits = padded_text(
            m,
            if width > 0 {
                width - 1
            } else {
                0
            },
        );
        let mut out: String = String::new();
        out.push('-');
        out.append(digits.as_str());
        assert(out@ =~= seq!['-'] + digits@);
        out
    } else {
        padded_text(n as u64, width)
    }
}

/// Whether two strings hold the same characters.
pub fn same(a: &str, b: &str) -> (r: bool)
    ensures
        r == (a@ == b@),
{
    let x: String = a.to_owned();
    let y: String = b.to_owned();
    x == y
}

/// `a` followed by `b`.
pub fn joined(a: &str, b: &str) -> (r: String)
    ensures
        r@ == a@ + b@,
{
    let mut out: String = a.to_owned();
    out.append(b);
    out
}

/// `n` copies of `c`.
pub open spec fn run_of(c: char, n: nat) -> Seq<char> {
    Seq::new(n, |i: int| c)
}

/// Appends `n` copies of `c`.
pub fn push_run(s: &mut String, c: char, n: usize)
    ensures
        final(s)@ == old(s)@ + run_of(c, n as nat),
{
    let ghost start = s@;
    let mut k: usize = 0;
    while k < n
        invariant
            k <= n,
            s@ == start + run_of(c, k as nat),
        decreases n - k,
    {
        s.push(c);
        k = k + 1;
        assert(s@ == start + run_of(c, k as nat));
    }
}

/// Texts with `sep` between each two.
pub open spec fn join_texts(parts: Seq<Seq<char>>, sep: Seq<char>) -> Seq<char>
    decreases parts.len(),
{
    if parts.len() == 0 {
        Seq::empty()
    } else if parts.len() == 1 {
        parts[0]
    } else {
        join_texts(parts.drop_last(), sep) + sep + parts.last()
    }
}

/// Strings with `sep` between each two.
pub fn join(parts: &Vec<String>, sep: &str) -> (r: String)
    ensures
        r@ == join_texts(texts(parts@), sep@),
{
    let ghost all = texts(parts@);
    let mut out: String = String::new();
    let mut i: usize = 0;
    while i < parts.len()
        invariant
            i <= parts@.len(),
            all == texts(parts@),
            out@ == join_texts(all.take(i as int), sep@),
        decreases parts.len() - i,
    {
        if i > 0 {
            out.append(sep);
        }
        out.append(parts[i].as_str());
        proof {
            let t = all.take(i + 1);
            assert(t.drop_last() == all.take(i as int));
            assert(t.last() == parts@[i as int]@);
            if i == 0 {
                assert(out@ =~= t[0]);
            }
        }
        i = i + 1;
    }
    assert(all.take(parts@.len() as int) == all);
    out
}

/// Whether `c` is white space (the Unicode property `White_Space`).
pub open spec fn is_space(c: char) -> bool {
    let n = c as u32;
    ||| 0x9 <= n <= 0xd
    ||| n == 0x20
    ||| n == 0x85
    ||| n == 0xa0
    ||| n == 0x1680
    ||| 0x2000 <= n <= 0x200a
    ||| n == 0x2028
    ||| n == 0x2029
    ||| n == 0x202f
    ||| n == 0x205f
    ||| n == 0x3000
}

/// `s` without the white space it begins with.
pub open spec fn trim_front(s: Seq<char>) -> Seq<char>
    decreases s.len(),
{
    if s.len() > 0 && is_space(s[0]) {
        trim_front(s.skip(1))
    } else {
        s
    }
}

/// `s` without the white space it ends with.
pub open spec fn trim_back(s: Seq<char>) -> Seq<char>
    decreases s.len(),
{
    if s.len() > 0 && is_space(s.last()) {
        trim_back(s.drop_last())
    } else {
        s
    }
}

/// `s` without white space at either end.
pub open spec fn trimmed(s: Seq<char>) -> Seq<char> {
    trim_back(trim_front(s))
}

proof fn lemma_trim_front(s: Seq<char>, k: int)
    requires
        0 <= k <= s.len(),
        forall|i: int| 0 <= i < k ==> is_space(s[i]),
        k < s.len() ==> !is_space(s[k]),
    ensures
        trim_front(s) == s.skip(k),
    decreases k,
{
    if k > 0 {
        lemma_trim_front(s.skip(1), k - 1);
        assert(s.skip(1).skip(k - 1) == s.skip(k));
    } else {
        assert(s.skip(0) == s);
    }
}

proof fn lemma_trim_back(s: Seq<char>, k: int)
    requires
        0 <= k <= s.len(),
        forall|i: int| k <= i < s.len() ==> is_space(s[i]),
        k > 0 ==> !is_space(s[k - 1]),
    ensures
        trim_back(s) == s.take(k),
    decreases s.len() - k,
{
    if k < s.len() {
        lemma_trim_back(s.drop_last(), k);
        assert(s.drop_last().take(k) == s.take(k));
    } else {
        assert(s.take(k) == s);
    }
}

/// Whether `c` is white space.
pub fn is_white_space(c: char) -> (r: bool)
    ensures
        r == is_space(c),
{
    let n: u32 = c as u32;
    (0x9 <= n && n <= 0xd) || n == 0x20 || n == 0x85 || n == 0xa0 || n == 0x1680 || (0x2000 <= n
        && n <= 0x200a) || n == 0x2028 || n == 0x2029 || n == 0x202f || n == 0x205f || n == 0x3000
}

/// `s` without white space at either end.
pub fn trim_text(s: &str) -> (r: String)
    ensures
        r@ == trimmed(s@),
{
    let cs = chars_of(s);
    let mut lo: usize = 0;
    while lo < cs.len() && is_white_space(cs[lo])
        invariant
            lo <= cs.len(),
            forall|i: int| 0 <= i < lo ==> is_space(cs@[i]),
        decreases cs.len() - lo,
    {
        lo = lo + 1;
    }
    let mut hi: usize = cs.len();
    while hi > lo && is_white_space(cs[hi - 1])
        invariant
            lo <= hi <= cs.len(),
            forall|i: int| hi <= i < cs.len() ==> is_space(cs@[i]),
        decreases hi,
    {
        hi = hi - 1;
    }
    proof {
        lemma_trim_front(cs@, lo as int);
        lemma_trim_back(cs@.skip(lo as int), hi - lo);
        assert(cs@.skip(lo as int).take(hi - lo) == cs@.subrange(lo as int, hi as int));
    }
    let mut out: String = String::new();
    let mut k: usize = lo;
    while k < hi
        invariant
            lo <= k <= hi <= cs.len(),
            out@ == cs@.subrange(lo as int, k as int),
        decreases hi - k,
    {
        out.push(cs[k]);
        assert(cs@.subrange(lo as int, k + 1) == cs@.subrange(lo as int, k as int).push(
            cs@[k as int],
        ));
        k = k + 1;
    }
    out
}

/// The ASCII lower-case form of one character.
pub open spec fn lower_char(c: char) -> char {
    if 'A' <= c && c <= 'Z' {
        (c as u32 + 32) as char
    } else {
        c
    }
}

/// `s` with every ASCII capital letter in lower case.
pub open spec fn ascii_lower(s: Seq<char>) -> Seq<char> {
    Seq::new(s.len(), |i: int| lower_char(s[i]))
}

/// `s` with every ASCII capital letter in lower case.
pub fn lower_text(s: &str) -> (r: String)
    ensures
        r@ == ascii_lower(s@),
{
    let cs = chars_of(s);
    let mut out: String = String::new();
    let mut i: usize = 0;
    while i < cs.len()
        invariant
            i <= cs.len(),
            out@ == ascii_lower(cs@).take(i as int),
        decreases cs.len() - i,
    {
        let c: char = cs[i];
        let d: char = if 'A' <= c && c <= 'Z' {
            (c as u8 + 32) as char
        } else {
            c
        };
        out.push(d);
        assert(ascii_lower(cs@).take(i + 1) == ascii_lower(cs@).take(i as int).push(d));
        i = i + 1;
    }
    assert(ascii_lower(cs@).take(cs@.len() as int) == ascii_lower(cs@));
    out
}

/// The upper-case form of a character; for some it is several characters.
pub uninterp spec fn upper_form(c: char) -> Seq<char>;

/// `char::to_uppercase`: the upper-case form of a character. Of ASCII
/// characters only the letters `a` to `z` have another one, the capital letter;
/// what other characters turn into is left to the name `upper_form`.
#[verifier::external_body]
fn to_upper(c: char) -> (r: String)
    ensures
        r@ == upper_form(c),
        'a' <= c <= 'z' ==> r@ == seq![(c as u32 - 32) as char],
        (c as u32) < 128 && !('a' <= c <= 'z') ==> r@ == seq![c],
{
    c.to_uppercase().collect()
}

/// `s` with its first character in upper case.
pub open spec fn capitalized(s: Seq<char>) -> Seq<char> {
    if s.len() == 0 {
        s
    } else {
        upper_form(s[0]) + s.skip(1)
    }
}

/// `s` with its first character in upper case, as in `loss` and `Loss`.
pub fn capitalize(s: &str) -> (r: String)
    ensures
        r@ == capitalized(s@),
        s@.len() > 0 && 'a' <= s@[0] <= 'z' ==> r@ == s@.update(0, (s@[0] as u32 - 32) as char),
{
    let cs = chars_of(s);
    if cs.len() == 0 {
        assert(cs@ =~= Seq::<char>::empty());
        return String::new();
    }
    let mut out: String = to_upper(cs[0]);
    let ghost head = out@;
    let mut i: usize = 1;
    while i < cs.len()
        invariant
            1 <= i <= cs@.len(),
            out@ == head + cs@.subrange(1, i as int),
        decreases cs.len() - i,
    {
        out.push(cs[i]);
        assert(head + cs@.subrange(1, i + 1) =~= (head + cs@.subrange(1, i as int)).push(
            cs@[i as int],
        ));
        i = i + 1;
    }
    assert(cs@.subrange(1, cs@.len() as int) =~= cs@.skip(1));
    assert('a' <= cs@[0] <= 'z' ==> out@ =~= cs@.update(0, (cs@[0] as u32 - 32) as char));
    out
}

/// Whether `a` comes before `b` in dictionary order by code point.
pub open spec fn text_before(a: Seq<char>, b: Seq<char>) -> bool
    decreases a.len(),
{
    if b.len() == 0 {
        false
    } else if a.len() == 0 {
        true
    } else if a[0] != b[0] {
        a[0] < b[0]
    } else {
        text_before(a.skip(1), b.skip(1))
    }
}

/// Dictionary order is total: of two different strings one comes first.
pub proof fn lemma_text_before_total(a: Seq<char>, b: Seq<char>)
    ensures
        a == b || text_before(a, b) || text_before(b, a),
    decreases a.len(),
{
    if a.len() > 0 && b.len() > 0 && a[0] == b[0] {
        lemma_text_before_total(a.skip(1), b.skip(1));
        if a.skip(1) == b.skip(1) {
            assert(a == seq![a[0]] + a.skip(1));
            assert(b == seq![b[0]] + b.skip(1));
        }
    } else if a.len() == 0 && b.len() == 0 {
        assert(a == b);
    }
}

/// Dictionary order is strict: no string comes before itself, and of two
/// strings at most one comes before the other.
pub proof fn lemma_text_before_strict(a: Seq<char>, b: Seq<char>)
    ensures
        !(text_before(a, b) && text_before(b, a)),
        !text_before(a, a),
    decreases a.len(),
{
    if a.len() > 0 && b.len() > 0 && a[0] == b[0] {
        lemma_text_before_strict(a.skip(1), b.skip(1));
    } else if a.len() > 0 {
        lemma_text_before_strict(a.skip(1), a.skip(1));
    }
}

/// Dictionary order is transitive.
pub proof fn lemma_text_before_transitive(a: Seq<char>, b: Seq<char>, c: Seq<char>)
    requires
        text_before(a, b),
        text_before(b, c),
    ensures
        text_before(a, c),
    decreases a.len(),
{
    if a.len() > 0 && a[0] == b[0] && b[0] == c[0] {
        lemma_text_before_transitive(a.skip(1), b.skip(1), c.skip(1));
    }
}

/// Whether `a` comes before `b` in dictionary order.
pub fn comes_before(a: &str, b: &str) -> (r: bool)
    ensures
        r == text_before(a@, b@),
{
    let x = chars_of(a);
    let y = chars_of(b);
    assert(x@.skip(0) == x@ && y@.skip(0) == y@);
    let mut i: usize = 0;
    while i < x.len() && i < y.len()
        invariant
            x@ == a@,
            y@ == b@,
            i <= x.len(),
            i <= y.len(),
            text_before(x@, y@) == text_before(x@.skip(i as int), y@.skip(i as int)),
        decreases x.len() - i,
    {
        if x[i] != y[i] {
            return x[i] < y[i];
        }
        assert(x@.skip(i as int).skip(1) == x@.skip(i + 1));
        assert(y@.skip(i as int).skip(1) == y@.skip(i + 1));
        i = i + 1;
    }
    x.len() < y.len()
}

/// The number that a row of decimal digits stands for.
pub open spec fn numeral_value(s: Seq<char>) -> int
    decreases s.len(),
{
    if s.len() == 0 {
        0
    } else {
        10 * numeral_value(s.drop_last()) + (s.last() as int - '0' as int)
    }
}

/// A numeral is made of decimal digits, stands for its number, and has no zero in front
/// but for the number 0 itself.
#[verifier::spinoff_prover]
pub proof fn numerals_read_back(n: nat)
    ensures
        numeral_value(decimal(n)) == n,
        decimal(n).len() > 0,
        forall|i: int| 0 <= i < decimal(n).len() ==> '0' <= #[trigger] decimal(n)[i] <= '9',
        n > 0 ==> decimal(n)[0] != '0',
        n == 0 ==> decimal(n).len() == 1,
    decreases n,
{
    if n < 10 {
        assert(decimal(n).drop_last() =~= Seq::<char>::empty());
        assert(numeral_value(Seq::<char>::empty()) == 0);
        assert(decimal(n).last() == digit_char(n));
        assert(decimal(n)[0] == digit_char(n));
    } else {
        numerals_read_back(n / 10);
        assert(decimal(n).drop_last() =~= decimal(n / 10));
        assert(decimal(n).last() == digit_char(n % 10));
        assert(decimal(n)[0] == decimal(n / 10)[0]);
    }
}

proof fn lemma_zeros_count_nothing(zeros: nat, s: Seq<char>)
    ensures
        numeral_value(run_of('0', zeros) + s) == numeral_value(s),
    decreases zeros, s.len(),
{
    let all = run_of('0', zeros) + s;
    if s.len() > 0 {
        assert(all.drop_last() =~= run_of('0', zeros) + s.drop_last());
        lemma_zeros_count_nothing(zeros, s.drop_last());
    } else if zeros > 0 {
        assert(all.drop_last() =~= run_of('0', (zeros - 1) as nat) + s);
        lemma_zeros_count_nothing((zeros - 1) as nat, s);
    } else {
        assert(all =~= s);
    }
}

/// Filling a numeral with zeros changes neither the number it stands for nor its digits,
/// and makes it as wide as asked for, unless it was wider already.
pub proof fn padded_numerals_read_back(n: nat, width: nat)
    ensures
        numeral_value(zero_padded(n, width)) == n,
        zero_padded(n, width).len() >= width,
        zero_padded(n, width).len() > width ==> zero_padded(n, width) == decimal(n),
        decimal(n).is_suffix_of(zero_padded(n, width)),
        forall|i: int|
            0 <= i < zero_padded(n, width).len() ==> '0' <= #[trigger] zero_padded(n, width)[i]
                <= '9',
{
    numerals_read_back(n);
    let d = decimal(n);
    if d.len() < width {
        lemma_zeros_count_nothing((width - d.len()) as nat, d);
        let all = zero_padded(n, width);
        assert(all.subrange((all.len() - d.len()) as int, all.len() as int) =~= d);
    } else {
        assert(d.subrange(0, d.len() as int) =~= d);
    }
}

/// A signed numeral has its minus sign in front exactly when the number is negative, and
/// the digits behind it stand for the number's size.
pub proof fn signed_numerals_read_back(n: int, width: nat)
    ensures
        signed_padded(n, width).len() >= width,
        n < 0 ==> signed_padded(n, width)[0] == '-' && numeral_value(signed_padded(n, width).skip(1))
            == -n,
        n >= 0 ==> signed_padded(n, width)[0] != '-' && numeral_value(signed_padded(n, width)) == n,
{
    if n < 0 {
        let w = if width > 0 {
            (width - 1) as nat
        } else {
            0
        };
        padded_numerals_read_back((-n) as nat, w);
        assert(signed_padded(n, width).skip(1) =~= zero_padded((-n) as nat, w));
    } else {
        padded_numerals_read_back(n as nat, width);
        numerals_read_back(n as nat);
        assert('0' <= zero_padded(n as nat, width)[0]);
    }
}

/// Joining texts puts the separator between each two: the first text, then a separator
/// and the others joined.
#[verifier::spinoff_prover]
pub proof fn joined_texts_keep_their_order(parts: Seq<Seq<char>>, sep: Seq<char>)
    ensures
        parts.len() == 0 ==> join_texts(parts, sep) == Seq::<char>::empty(),
        parts.len() == 1 ==> join_texts(parts, sep) == parts[0],
        parts.len() >= 2 ==> join_texts(parts, sep) == parts[0] + sep + join_texts(
            parts.skip(1),
            sep,
        ),
    decreases parts.len(),
{
    if parts.len() >= 2 {
        let front = parts.drop_last();
        let rest = parts.skip(1);
        joined_texts_keep_their_order(front, sep);
        assert(rest.last() == parts.last());
        if parts.len() == 2 {
            assert(rest[0] == parts[1]);
            assert(front[0] == parts[0]);
        } else {
            assert(rest.drop_last() =~= front.skip(1));
            assert(front[0] == parts[0]);
            assert(join_texts(parts, sep) =~= parts[0] + sep + join_texts(rest, sep));
        }
    }
}

/// Whether `t` is what is left of `s` between the positions `from` and `to`, with white
/// space alone around it and none at its ends.
pub open spec fn bare_part(s: Seq<char>, t: Seq<char>, from: int, to: int) -> bool {
    &&& 0 <= from <= to <= s.len()
    &&& t == s.subrange(from, to)
    &&& forall|i: int| 0 <= i < from ==> is_space(#[trigger] s[i])
    &&& forall|i: int| to <= i < s.len() ==> is_space(#[trigger] s[i])
    &&& t.len() > 0 ==> !is_space(t[0]) && !is_space(t.last())
}

/// Trimming takes away the white space at both ends of a text and nothing else. Of the
/// ASCII characters those from tab to carriage return and the blank are white space.
#[verifier::spinoff_prover]
pub proof fn trimming_leaves_the_bare_text(s: Seq<char>)
    ensures
        exists|from: int, to: int| #[trigger] bare_part(s, trimmed(s), from, to),
        forall|c: char|
            (c as u32) < 128 ==> (#[trigger] is_space(c) <==> 9 <= c as u32 <= 13 || c as u32 == 32),
{
    let k = lemma_front_of(s);
    let rest = s.skip(k);
    let m = lemma_back_of(rest);
    assert(trimmed(s) =~= s.subrange(k, k + m));
    assert forall|i: int| k + m <= i < s.len() implies is_space(#[trigger] s[i]) by {
        assert(rest[i - k] == s[i]);
    }
    assert(bare_part(s, trimmed(s), k, k + m));
}

proof fn lemma_front_of(s: Seq<char>) -> (k: int)
    ensures
        0 <= k <= s.len(),
        trim_front(s) == s.skip(k),
        forall|i: int| 0 <= i < k ==> is_space(#[trigger] s[i]),
        k < s.len() ==> !is_space(s[k]),
    decreases s.len(),
{
    if s.len() > 0 && is_space(s[0]) {
        let j = lemma_front_of(s.skip(1));
        assert(s.skip(1).skip(j) =~= s.skip(j + 1));
        assert forall|i: int| 0 <= i < j + 1 implies is_space(#[trigger] s[i]) by {
            if i > 0 {
                assert(s.skip(1)[i - 1] == s[i]);
            }
        }
        j + 1
    } else {
        assert(s.skip(0) =~= s);
        0
    }
}

proof fn lemma_back_of(s: Seq<char>) -> (k: int)
    ensures
        0 <= k <= s.len(),
        trim_back(s) == s.take(k),
        forall|i: int| k <= i < s.len() ==> is_space(#[trigger] s[i]),
        k > 0 ==> !is_space(s[k - 1]),
    decreases s.len(),
{
    if s.len() > 0 && is_space(s.last()) {
        let k = lemma_back_of(s.drop_last());
        assert(s.drop_last().take(k) =~= s.take(k));
        assert forall|i: int| k <= i < s.len() implies is_space(#[trigger] s[i]) by {
            if i < s.len() - 1 {
                assert(s.drop_last()[i] == s[i]);
            }
        }
        k
    } else {
        assert(s.take(s.len() as int) =~= s);
        s.len() as int
    }
}

/// Lower case keeps every character where it is, turns `A` to `Z` into `a` to `z` and
/// leaves the others alone.
pub proof fn lower_case_changes_capitals_only(s: Seq<char>, i: int)
    requires
        0 <= i < s.len(),
    ensures
        ascii_lower(s).len() == s.len(),
        'A' <= s[i] <= 'Z' ==> ascii_lower(s)[i] as int - 'a' as int == s[i] as int - 'A' as int,
        !('A' <= s[i] <= 'Z') ==> ascii_lower(s)[i] == s[i],
        ascii_lower(ascii_lower(s)) == ascii_lower(s),
{
    assert(ascii_lower(ascii_lower(s)) =~= ascii_lower(s));
}

/// Whether two texts agree up to position `p` and `a` then comes first: it ends there
/// while `b` goes on, or has the lesser character there.
pub open spec fn parts_at(a: Seq<char>, b: Seq<char>, p: int) -> bool {
    &&& 0 <= p <= a.len()
    &&& p < b.len()
    &&& forall|i: int| 0 <= i < p ==> #[trigger] a[i] == b[i]
    &&& p == a.len() || (a[p] as int) < (b[p] as int)
}

/// Dictionary order goes by the first position where two texts differ.
#[verifier::spinoff_prover]
pub proof fn order_goes_by_the_first_difference(a: Seq<char>, b: Seq<char>)
    ensures
        text_before(a, b) <==> exists|p: int| #[trigger] parts_at(a, b, p),
    decreases a.len(),
{
    if a.len() > 0 && b.len() > 0 && a[0] == b[0] {
        let x = a.skip(1);
        let y = b.skip(1);
        order_goes_by_the_first_difference(x, y);
        if text_before(a, b) {
            let p = choose|p: int| #[trigger] parts_at(x, y, p);
            assert forall|i: int| 0 <= i < p + 1 implies #[trigger] a[i] == b[i] by {
                if i > 0 {
                    assert(x[i - 1] == y[i - 1]);
                }
            }
            assert(parts_at(a, b, p + 1));
        }
        if exists|p: int| #[trigger] parts_at(a, b, p) {
            let p = choose|p: int| #[trigger] parts_at(a, b, p);
            assert forall|i: int| 0 <= i < p - 1 implies #[trigger] x[i] == y[i] by {
                assert(a[i + 1] == b[i + 1]);
            }
            assert(parts_at(x, y, p - 1));
        }
    } else if b.len() > 0 {
        if text_before(a, b) {
            assert(parts_at(a, b, 0));
        }
        if exists|p: int| #[trigger] parts_at(a, b, p) {
            let p = choose|p: int| #[trigger] parts_at(a, b, p);
            if p > 0 {
                assert(a[0] == b[0]);
            }
        }
    }
}

/// Capitalizing changes the first character alone.
pub proof fn capitalizing_keeps_the_rest(s: Seq<char>)
    ensures
        s.len() == 0 ==> capitalized(s).len() == 0,
        s.len() > 0 ==> capitalized(s) == upper_form(s[0]) + s.subrange(1, s.len() as int),
{
    if s.len() > 0 {
        assert(s.skip(1) =~= s.subrange(1, s.len() as int));
    }
}

} // verus!
