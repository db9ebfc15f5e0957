//! Text handling for converter chains and command lines: whitespace,
//! trimming, prefixes, comma-separated segments and decimal numbers.

use vstd::prelude::*;
use vstd::string::StrSliceExecFns;

verus! {

/// The characters that count as whitespace: those with the Unicode
/// property `White_Space`.
pub open spec fn is_space(c: char) -> bool {
    let u = c as u32;
    ||| 0x09 <= u <= 0x0D
    ||| u == 0x20
    ||| u == 0x85
    ||| u == 0xA0
    ||| u == 0x1680
    ||| 0x2000 <= u <= 0x200A
    ||| u == 0x2028
    ||| u == 0x2029
    ||| u == 0x202F
    ||| u == 0x205F
    ||| u == 0x3000
}

pub fn is_space_char(c: char) -> (r: bool)
    ensures
        r == is_space(c),
{
    let u: u32 = c as u32;
    (0x09 <= u && u <= 0x0D) || u == 0x20 || u == 0x85 || u == 0xA0 || u == 0x1680 || (0x2000 <= u
        && u <= 0x200A) || u == 0x2028 || u == 0x2029 || u == 0x202F || u == 0x205F || u == 0x3000
}

/// The first position at or after `i` that holds no whitespace.
pub open spec fn skip_spaces(s: Seq<char>, i: int) -> int
    decreases s.len() - i,
{
    if 0 <= i < s.len() && is_space(s[i]) {
        skip_spaces(s, i + 1)
    } else {
        i
    }
}

/// The end of the text before `j` once the whitespace in front of `j` is
/// dropped, never going below `lo`.
pub open spec fn drop_spaces(s: Seq<char>, lo: int, j: int) -> int
    decreases j,
{
    if 0 <= lo < j <= s.len() && is_space(s[j - 1]) {
        drop_spaces(s, lo, j - 1)
    } else {
        j
    }
}

/// The text without the whitespace at its two ends.
pub open spec fn trimmed(s: Seq<char>) -> Seq<char> {
    let lo = skip_spaces(s, 0);
    let hi = drop_spaces(s, lo, s.len() as int);
    s.subrange(lo, hi)
}

/// The text without the whitespace at its two ends.
pub fn trim<'a>(s: &'a str) -> (r: &'a str)
    ensures
        r@ == trimmed(s@),
{
    let n = s.unicode_len();
    let mut lo: usize = 0;
    while lo < n && is_space_char(s.get_char(lo))
        invariant
            n == s@.len(),
            0 <= lo <= n,
            skip_spaces(s@, 0) == skip_spaces(s@, lo as int),
        decreases n - lo,
    {
        lo += 1;
    }
    let mut hi: usize = n;
    while hi > lo && is_space_char(s.get_char(hi - 1))
        invariant
            n == s@.len(),
            lo <= hi <= n,
            drop_spaces(s@, lo as int, n as int) == drop_spaces(s@, lo as int, hi as int),
        decreases hi,
    {
        hi -= 1;
    }
    s.substring_char(lo, hi)
}

/// `s` begins with `p`.
pub open spec fn starts_with(s: Seq<char>, p: Seq<char>) -> bool {
    p.len() <= s.len() && s.take(p.len() as int) == p
}

pub fn has_prefix(s: &str, p: &str) -> (r: bool)
    ensures
        r == starts_with(s@, p@),
{
    let n = s.unicode_len();
    let m = p.unicode_len();
    if m > n {
        return false;
    }
    let mut i: usize = 0;
    while i < m
        invariant
            n == s@.len(),
            m == p@.len(),
            m <= n,
            0 <= i <= m,
            forall|j: int| 0 <= j < i ==> s@[j] == p@[j],
        decreases m - i,
    {
        if s.get_char(i) != p.get_char(i) {
            assert(s@.take(m as int)[i as int] != p@[i as int]);
            return false;
        }
        i += 1;
    }
    assert(s@.take(m as int) =~= p@);
    true
}

pub fn same_text(s: &str, p: &str) -> (r: bool)
    ensures
        r == (s@ == p@),
{
    let r = s.unicode_len() == p.unicode_len() && has_prefix(s, p);
    proof {
        if s@.len() == p@.len() {
            assert(s@.take(s@.len() as int) =~= s@);
        }
    }
    r
}

/// The text after the last comma of `s`.
pub open spec fn last_piece(s: Seq<char>) -> Seq<char>
    decreases s.len(),
{
    if s.len() == 0 {
        Seq::empty()
    } else if s.last() == ',' {
        Seq::empty()
    } else {
        last_piece(s.drop_last()).push(s.last())
    }
}

/// `list`, with `piece` behind it unless `piece` is empty.
pub open spec fn keep_piece(list: Seq<Seq<char>>, piece: Seq<char>) -> Seq<Seq<char>> {
    if piece.len() == 0 {
        list
    } else {
        list.push(piece)
    }
}

/// The segments of `s` that a comma has closed: each piece between commas,
/// trimmed, the empty ones left out.
pub open spec fn closed_pieces(s: Seq<char>) -> Seq<Seq<char>>
    decreases s.len(),
{
    if s.len() == 0 {
        Seq::empty()
    } else if s.last() == ',' {
        keep_piece(closed_pieces(s.drop_last()), trimmed(last_piece(s.drop_last())))
    } else {
        closed_pieces(s.drop_last())
    }
}

/// The segments of a comma-separated chain: the pieces between the commas,
/// each trimmed of whitespace, the empty ones left out, in order.
pub open spec fn segments(s: Seq<char>) -> Seq<Seq<char>> {
    keep_piece(closed_pieces(s), trimmed(last_piece(s)))
}

/// The texts of a list of strings.
pub open spec fn texts(v: Seq<String>) -> Seq<Seq<char>> {
    Seq::new(v.len(), |i: int| v[i]@)
}

/// Splits a comma-separated chain into its segments.
pub fn split_chain(chain: &str) -> (r: Vec<String>)
    ensures
        texts(r@) == segments(chain@),
{
    let n = chain.unicode_len();
    let mut out: Vec<String> = Vec::new();
    let mut start: usize = 0;
    let mut i: usize = 0;
    assert(texts(out@) =~= closed_pieces(chain@.take(0)));
    assert(chain@.subrange(0, 0) =~= last_piece(chain@.take(0)));
    while i < n
        invariant
            n == chain@.len(),
            0 <= start <= i <= n,
            texts(out@) == closed_pieces(chain@.take(i as int)),
            chain@.subrange(start as int, i as int) == last_piece(chain@.take(i as int)),
        decreases n - i,
    {
        let c = chain.get_char(i);
        let ghost before = chain@.take(i as int);
        let ghost after = chain@.take(i as int + 1);
        assert(after.drop_last() =~= before);
        assert(after.last() == c);
        if c == ',' {
            let piece = trim(chain.substring_char(start, i));
            let ghost old_out = out@;
            if piece.unicode_len() > 0 {
                out.push(piece.to_owned());
                assert(texts(out@) =~= texts(old_out).push(piece@));
            }
            start = i + 1;
            assert(chain@.subrange(start as int, i as int + 1) =~= Seq::<char>::empty());
        } else {
            assert(chain@.subrange(start as int, i as int + 1) =~= chain@.subrange(
                start as int,
                i as int,
            ).push(c));
        }
        i += 1;
    }
    assert(chain@.take(n as int) =~= chain@);
    let piece = trim(chain.substring_char(start, n));
    let ghost old_out = out@;
    if piece.unicode_len() > 0 {
        out.push(piece.to_owned());
        assert(texts(out@) =~= texts(old_out).push(piece@));
    }
    out
}

/// The text after the last whitespace of `s`.
pub open spec fn last_word(s: Seq<char>) -> Seq<char>
    decreases s.len(),
{
    if s.len() == 0 || is_space(s.last()) {
        Seq::empty()
    } else {
        last_word(s.drop_last()).push(s.last())
    }
}

/// The words of `s` that whitespace has closed.
pub open spec fn closed_words(s: Seq<char>) -> Seq<Seq<char>>
    decreases s.len(),
{
    if s.len() == 0 {
        Seq::empty()
    } else if is_space(s.last()) {
        keep_piece(closed_words(s.drop_last()), last_word(s.drop_last()))
    } else {
        closed_words(s.drop_last())
    }
}

/// The words of a text: its longest runs of characters that are no
/// whitespace, in order.
pub open spec fn words(s: Seq<char>) -> Seq<Seq<char>> {
    keep_piece(closed_words(s), last_word(s))
}

/// Splits a text into its words.
pub fn split_words(line: &str) -> (r: Vec<String>)
    ensures
        texts(r@) == words(line@),
{
    let n = line.unicode_len();
    let mut out: Vec<String> = Vec::new();
    let mut start: usize = 0;
    let mut i: usize = 0;
    assert(texts(out@) =~= closed_words(line@.take(0)));
    assert(line@.subrange(0, 0) =~= last_word(line@.take(0)));
    while i < n
        invariant
            n == line@.len(),
            0 <= start <= i <= n,
            texts(out@) == closed_words(line@.take(i as int)),
            line@.subrange(start as int, i as int) == last_word(line@.take(i as int)),
        decreases n - i,
    {
        let c = line.get_char(i);
        let ghost before = line@.take(i as int);
        let ghost after = line@.take(i as int + 1);
        assert(after.drop_last() =~= before);
        assert(after.last() == c);
        if is_space_char(c) {
            let ghost old_out = out@;
            if i > start {
                let piece = line.substring_char(start, i);
                out.push(piece.to_owned());
                assert(texts(out@) =~= texts(old_out).push(piece@));
            }
            start = i + 1;
            assert(line@.subrange(start as int, i as int + 1) =~= Seq::<char>::empty());
        } else {
            assert(line@.subrange(start as int, i as int + 1) =~= line@.subrange(
                start as int,
                i as int,
            ).push(c));
        }
        i += 1;
    }
    assert(line@.take(n as int) =~= line@);
    let ghost old_out = out@;
    if n > start {
        let piece = line.substring_char(start, n);
        out.push(piece.to_owned());
        assert(texts(out@) =~= texts(old_out).push(piece@));
    }
    out
}

/// Every character is a decimal digit.
pub open spec fn all_digits(s: Seq<char>) -> bool {
    forall|i: int| 0 <= i < s.len() ==> '0' <= #[trigger] s[i] <= '9'
}

/// The number that a run of decimal digits denotes.
pub open spec fn digits_value(s: Seq<char>) -> nat
    decreases s.len(),
{
    if s.len() == 0 {
        0
    } else {
        digits_value(s.drop_last()) * 10 + ((s.last() as u32 - '0' as u32) as nat)
    }
}

/// The number that `s` denotes as an unsigned decimal: an optional `+`,
/// then one or more digits and nothing else. `None` where `s` is not of
/// that form or its number is above `max`.
pub open spec fn decimal(s: Seq<char>, max: nat) -> Option<nat> {
    let d = if s.len() > 0 && s[0] == '+' {
        s.skip(1)
    } else {
        s
    };
    if d.len() > 0 && all_digits(d) && digits_value(d) <= max {
        Some(digits_value(d))
    } else {
        None
    }
}

/// The digits at the front of a run of digits denote no more than the
/// whole run.
pub proof fn lemma_digits_prefix(d: Seq<char>, i: int)
    requires
        all_digits(d),
        0 <= i <= d.len(),
    ensures
        digits_value(d.take(i)) <= digits_value(d),
    decreases d.len() - i,
{
    if i < d.len() {
        lemma_digits_prefix(d, i + 1);
        assert(d.take(i + 1).drop_last() =~= d.take(i));
        assert('0' <= d[i] <= '9');
        assert(d.take(i + 1).last() == d[i]);
    } else {
        assert(d.take(i) =~= d);
    }
}

/// Reads an unsigned decimal number that is at most `max`.
pub fn parse_decimal(s: &str, max: u64) -> (r: Option<u64>)
    ensures
        match r {
            Some(n) => decimal(s@, max as nat) == Some(n as nat),
            None => decimal(s@, max as nat) is None,
        },
{
    let n = s.unicode_len();
    let start: usize = if n > 0 && s.get_char(0) == '+' {
        1
    } else {
        0
    };
    if start >= n {
        return None;
    }
    let ghost d = if s@.len() > 0 && s@[0] == '+' {
        s@.skip(1)
    } else {
        s@
    };
    assert(s@.skip(0) =~= s@);
    let mut acc: u64 = 0;
    let mut i: usize = start;
    assert(d.take(0) =~= Seq::<char>::empty());
    while i < n
        invariant
            n == s@.len(),
            start <= i <= n,
            d == s@.skip(start as int),
            d == if s@.len() > 0 && s@[0] == '+' {
                s@.skip(1)
            } else {
                s@
            },
            forall|k: int| 0 <= k < i - start ==> '0' <= #[trigger] d[k] <= '9',
            acc == digits_value(d.take(i - start)),
            acc <= max,
        decreases n - i,
    {
        let c = s.get_char(i);
        assert(d[i - start] == c);
        if c < '0' || c > '9' {
            assert(!('0' <= d[i - start] <= '9'));
            return None;
        }
        let v: u64 = (c as u32 - '0' as u32) as u64;
        proof {
            let next = d.take(i - start + 1);
            assert(next.drop_last() =~= d.take(i - start));
            assert(next.last() == c);
            assert(digits_value(next) == acc * 10 + v);
            if all_digits(d) {
                lemma_digits_prefix(d, i - start + 1);
            }
        }
        if v > max || acc > (max - v) / 10 {
            return None;
        }
        acc = acc * 10 + v;
        i += 1;
    }
    proof {
        assert(d.take(n - start) =~= d);
        assert(all_digits(d));
    }
    Some(acc)
}

/// Reads an unsigned decimal number of 32 bits.
pub fn parse_u32(s: &str) -> (r: Option<u32>)
    ensures
        match r {
            Some(n) => decimal(s@, u32::MAX as nat) == Some(n as nat),
            None => decimal(s@, u32::MAX as nat) is None,
        },
{
    match parse_decimal(s, 0xffff_ffff) {
        Some(n) => Some(n as u32),
        None => None,
    }
}

/// Reads an unsigned decimal number of pointer width.
pub fn parse_usize(s: &str) -> (r: Option<usize>)
    ensures
        match r {
            Some(n) => decimal(s@, usize::MAX as nat) == Some(n as nat),
            None => decimal(s@, usize::MAX as nat) is None,
        },
{
    match parse_decimal(s, usize::MAX as u64) {
        Some(n) => Some(n as usize),
        None => None,
    }
}

/// The text after the last dot of `s`.
pub open spec fn last_label(s: Seq<char>) -> Seq<char>
    decreases s.len(),
{
    if s.len() == 0 || s.last() == '.' {
        Seq::empty()
    } else {
        last_label(s.drop_last()).push(s.last())
    }
}

/// `list` with the number that `label` denotes behind it; nothing where
/// there is no list or `label` is no number of 32 bits.
pub open spec fn with_label(list: Option<Seq<u32>>, label: Seq<char>) -> Option<Seq<u32>> {
    match (list, decimal(label, u32::MAX as nat)) {
        (Some(v), Some(n)) => Some(v.push(n as u32)),
        _ => None,
    }
}

/// The numbers of the labels of `s` that a dot has closed.
pub open spec fn closed_labels(s: Seq<char>) -> Option<Seq<u32>>
    decreases s.len(),
{
    if s.len() == 0 {
        Some(Seq::empty())
    } else if s.last() == '.' {
        with_label(closed_labels(s.drop_last()), last_label(s.drop_last()))
    } else {
        closed_labels(s.drop_last())
    }
}

/// The path that a dotted text denotes: the numbers between its dots. Each
/// of them has to be an unsigned decimal number of 32 bits, so the empty
/// text denotes no path.
pub open spec fn dotted(s: Seq<char>) -> Option<Seq<u32>> {
    with_label(closed_labels(s), last_label(s))
}

/// Reads a path from its dotted text.
pub fn parse_dotted(text: &str) -> (r: Option<Vec<u32>>)
    ensures
        match r {
            Some(v) => dotted(text@) == Some(v@),
            None => dotted(text@) is None,
        },
{
    let n = text.unicode_len();
    let mut out: Vec<u32> = Vec::new();
    let mut ok = true;
    let mut start: usize = 0;
    let mut i: usize = 0;
    assert(text@.subrange(0, 0) =~= last_label(text@.take(0)));
    while i < n
        invariant
            n == text@.len(),
            0 <= start <= i <= n,
            ok ==> closed_labels(text@.take(i as int)) == Some(out@),
            !ok ==> closed_labels(text@.take(i as int)) is None,
            text@.subrange(start as int, i as int) == last_label(text@.take(i as int)),
        decreases n - i,
    {
        let c = text.get_char(i);
        let ghost before = text@.take(i as int);
        let ghost after = text@.take(i as int + 1);
        assert(after.drop_last() =~= before);
        assert(after.last() == c);
        if c == '.' {
            match parse_u32(text.substring_char(start, i)) {
                Some(v) => {
                    out.push(v);
                },
                None => {
                    ok = false;
                },
            }
            start = i + 1;
            assert(text@.subrange(start as int, i as int + 1) =~= Seq::<char>::empty());
        } else {
            assert(text@.subrange(start as int, i as int + 1) =~= text@.subrange(
                start as int,
                i as int,
            ).push(c));
        }
        i += 1;
    }
    assert(text@.take(n as int) =~= text@);
    match parse_u32(text.substring_char(start, n)) {
        Some(v) => {
            if ok {
                out.push(v);
                Some(out)
            } else {
                None
            }
        },
        None => None,
    }
}

/// The character of a decimal digit.
pub open spec fn digit_char(d: nat) -> char {
    if d == 0 {
        '0'
    } else if d == 1 {
        '1'
    } else if d == 2 {
        '2'
    } else if d == 3 {
        '3'
    } else if d == 4 {
        '4'
    } else if d == 5 {
        '5'
    } else if d == 6 {
        '6'
    } else if d == 7 {
        '7'
    } else if d == 8 {
        '8'
    } else {
        '9'
    }
}

/// A number in decimal, without a sign and without leading zeros.
pub open spec fn decimal_text(n: nat) -> Seq<char>
    decreases n,
{
    if n < 10 {
        seq![digit_char(n)]
    } else {
        decimal_text(n / 10).push(digit_char(n % 10))
    }
}

/// A path as dotted text: its components in decimal, with a dot between
/// each two. The text of the empty path is empty.
pub open spec fn dotted_text(path: Seq<u32>) -> Seq<char>
    decreases path.len(),
{
    if path.len() == 0 {
        Seq::empty()
    } else if path.len() == 1 {
        decimal_text(path[0] as nat)
    } else {
        dotted_text(path.drop_last()) + seq!['.'] + decimal_text(path.last() as nat)
    }
}

/// The decimal text of a number is made of digits and denotes the number.
pub proof fn lemma_decimal_text(n: nat)
    ensures
        decimal_text(n).len() > 0,
        all_digits(decimal_text(n)),
        digits_value(decimal_text(n)) == n,
    decreases n,
{
    let t = decimal_text(n);
    if n < 10 {
        assert(t.drop_last() =~= Seq::<char>::empty());
        assert(digits_value(t.drop_last()) == 0);
    } else {
        lemma_decimal_text(n / 10);
        assert(t.drop_last() =~= decimal_text(n / 10));
        assert(t.last() == digit_char(n % 10));
    }
}

/// Reading the decimal text of a number gives the number.
pub proof fn lemma_decimal_roundtrip(n: nat, max: nat)
    requires
        n <= max,
    ensures
        decimal(decimal_text(n), max) == Some(n),
{
    lemma_decimal_text(n);
    assert('0' <= decimal_text(n)[0] <= '9');
}

/// Digits behind a text lengthen its last label and close no label.
pub proof fn lemma_labels_append(u: Seq<char>, d: Seq<char>)
    requires
        all_digits(d),
    ensures
        last_label(u + d) == last_label(u) + d,
        closed_labels(u + d) == closed_labels(u),
    decreases d.len(),
{
    if d.len() == 0 {
        assert(u + d =~= u);
        assert(last_label(u) + d =~= last_label(u));
    } else {
        let d0 = d.drop_last();
        assert((u + d).drop_last() =~= u + d0);
        assert((u + d).last() == d.last());
        assert('0' <= d[d.len() - 1] <= '9');
        assert forall|i: int| 0 <= i < d0.len() implies '0' <= #[trigger] d0[i] <= '9' by {
            assert(d0[i] == d[i]);
        }
        lemma_labels_append(u, d0);
        assert(last_label(u) + d =~= (last_label(u) + d0).push(d.last()));
    }
}

/// Reading the dotted text of a path that has a component gives the path.
pub proof fn lemma_dotted_roundtrip(path: Seq<u32>)
    requires
        path.len() > 0,
    ensures
        closed_labels(dotted_text(path)) == Some(path.drop_last()),
        last_label(dotted_text(path)) == decimal_text(path.last() as nat),
        dotted(dotted_text(path)) == Some(path),
    decreases path.len(),
{
    let d = decimal_text(path.last() as nat);
    lemma_decimal_text(path.last() as nat);
    lemma_decimal_roundtrip(path.last() as nat, u32::MAX as nat);
    if path.len() == 1 {
        let e = Seq::<char>::empty();
        lemma_labels_append(e, d);
        assert(e + d =~= d);
        assert(last_label(e) + d =~= d);
        assert(path.drop_last() =~= Seq::<u32>::empty());
    } else {
        let front = path.drop_last();
        lemma_dotted_roundtrip(front);
        let u = dotted_text(front) + seq!['.'];
        assert(u.drop_last() =~= dotted_text(front));
        assert(u.last() == '.');
        lemma_decimal_roundtrip(front.last() as nat, u32::MAX as nat);
        assert(front.drop_last().push(front.last()) =~= front);
        assert(closed_labels(u) == Some(front));
        assert(last_label(u) =~= Seq::<char>::empty());
        lemma_labels_append(u, d);
        assert(last_label(u) + d =~= d);
    }
    assert(path.drop_last().push(path.last()) =~= path);
}

} // verus!
