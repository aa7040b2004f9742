use vstd::prelude::*;

verus! {

/// `c` with an ASCII lower-case letter turned upper-case.
pub open spec fn spec_ascii_upper(c: char) -> char {
    if 'a' <= c && c <= 'z' {
        ((c as u32) - 32) as char
    } else {
        c
    }
}

/// `c` with an ASCII upper-case letter turned lower-case.
pub open spec fn spec_ascii_lower(c: char) -> char {
    if 'A' <= c && c <= 'Z' {
        ((c as u32) + 32) as char
    } else {
        c
    }
}

pub fn ascii_upper(c: char) -> (r: char)
    ensures
        r == spec_ascii_upper(c),
{
    if 'a' <= c && c <= 'z' {
        ((c as u8) - 32) as char
    } else {
        c
    }
}

pub fn ascii_lower(c: char) -> (r: char)
    ensures
        r == spec_ascii_lower(c),
{
    if 'A' <= c && c <= 'Z' {
        ((c as u8) + 32) as char
    } else {
        c
    }
}

/// The text made of the characters `cs`.
#[verifier::external_body]
pub fn string_from_chars(cs: &Vec<char>) -> (s: String)
    ensures
        s@ == cs@,
{
    cs.iter().collect()
}

/// The characters of `s`.
pub fn chars_of(s: &str) -> (r: Vec<char>)
    ensures
        r@ == s@,
{
    let mut r: Vec<char> = Vec::new();
    for c in it: s.chars()
        invariant
            r@ == it.seq().take(it.index() as int),
    {
        r.push(c);
    }
    r
}

/// The characters that Rust's `split_ascii_whitespace` splits on.
pub open spec fn is_ascii_ws(c: char) -> bool {
    c == ' ' || c == '\t' || c == '\n' || c == '\x0C' || c == '\r'
}

/// The characters with the Unicode `White_Space` property, which `trim` removes.
pub open spec fn is_unicode_ws(c: char) -> bool {
    ('\t' <= c && c <= '\r') || c == ' ' || c == '\u{85}' || c == '\u{A0}' || c == '\u{1680}'
        || ('\u{2000}' <= c && c <= '\u{200A}') || c == '\u{2028}' || c == '\u{2029}' || c == '\u{202F}'
        || c == '\u{205F}' || c == '\u{3000}'
}

/// A line without the carriage return that ends it, if any.
pub open spec fn strip_cr(l: Seq<char>) -> Seq<char> {
    if l.len() > 0 && l.last() == '\r' {
        l.drop_last()
    } else {
        l
    }
}

/// Splits `s[i..]` into lines, given the line `cur` read so far and the
/// lines `acc` before it: a line ends at `\n`, which is dropped together
/// with a `\r` before it; a last line without `\n` is kept as it is, and an
/// empty one is no line.
pub open spec fn lines_scan(s: Seq<char>, i: nat, cur: Seq<char>, acc: Seq<Seq<char>>) -> Seq<Seq<char>>
    decreases s.len() - i,
{
    if i >= s.len() {
        if cur.len() > 0 {
            acc.push(cur)
        } else {
            acc
        }
    } else if s[i as int] == '\n' {
        lines_scan(s, i + 1, seq![], acc.push(strip_cr(cur)))
    } else {
        lines_scan(s, i + 1, cur.push(s[i as int]), acc)
    }
}

/// The lines of a text, as Rust's `str::lines` gives them.
pub open spec fn lines(s: Seq<char>) -> Seq<Seq<char>> {
    lines_scan(s, 0, seq![], seq![])
}

/// Splits `s[i..]` into words separated by ASCII white space, given the word
/// `cur` read so far and the words `acc` before it.
pub open spec fn tokens_scan(s: Seq<char>, i: nat, cur: Seq<char>, acc: Seq<Seq<char>>) -> Seq<Seq<char>>
    decreases s.len() - i,
{
    if i >= s.len() {
        if cur.len() > 0 {
            acc.push(cur)
        } else {
            acc
        }
    } else if is_ascii_ws(s[i as int]) {
        tokens_scan(s, i + 1, seq![], if cur.len() > 0 { acc.push(cur) } else { acc })
    } else {
        tokens_scan(s, i + 1, cur.push(s[i as int]), acc)
    }
}

/// The words of a line, as Rust's `split_ascii_whitespace` gives them.
pub open spec fn tokens(s: Seq<char>) -> Seq<Seq<char>> {
    tokens_scan(s, 0, seq![], seq![])
}

/// The views of a list of character vectors.
pub open spec fn char_views(v: Seq<Vec<char>>) -> Seq<Seq<char>> {
    v.map_values(|x: Vec<char>| x@)
}

/// The lines of `s`.
pub fn split_lines(s: &Vec<char>) -> (r: Vec<Vec<char>>)
    ensures
        char_views(r@) == lines(s@),
{
    let mut acc: Vec<Vec<char>> = Vec::new();
    let mut cur: Vec<char> = Vec::new();
    assert(char_views(acc@) == Seq::<Seq<char>>::empty());
    assert(cur@ == Seq::<char>::empty());
    let mut i: usize = 0;
    while i < s.len()
        invariant
            i <= s@.len(),
            lines_scan(s@, i as nat, cur@, char_views(acc@)) == lines(s@),
        decreases s@.len() - i,
    {
        if s[i] == '\n' {
            let ghost before = char_views(acc@);
            if cur.len() > 0 && cur[cur.len() - 1] == '\r' {
                cur.pop();
            }
            acc.push(cur);
            assert(char_views(acc@) == before.push(acc@.last()@));
            cur = Vec::new();
        } else {
            cur.push(s[i]);
        }
        i = i + 1;
    }
    if cur.len() > 0 {
        let ghost before = char_views(acc@);
        acc.push(cur);
        assert(char_views(acc@) == before.push(acc@.last()@));
    }
    acc
}

/// The words of `s`, split at ASCII white space.
pub fn split_tokens(s: &Vec<char>) -> (r: Vec<Vec<char>>)
    ensures
        char_views(r@) == tokens(s@),
{
    let mut acc: Vec<Vec<char>> = Vec::new();
    let mut cur: Vec<char> = Vec::new();
    assert(char_views(acc@) == Seq::<Seq<char>>::empty());
    assert(cur@ == Seq::<char>::empty());
    let mut i: usize = 0;
    while i < s.len()
        invariant
            i <= s@.len(),
            tokens_scan(s@, i as nat, cur@, char_views(acc@)) == tokens(s@),
        decreases s@.len() - i,
    {
        let c = s[i];
        if c == ' ' || c == '\t' || c == '\n' || c == '\x0C' || c == '\r' {
            if cur.len() > 0 {
                let ghost before = char_views(acc@);
                acc.push(cur);
                assert(char_views(acc@) == before.push(acc@.last()@));
            }
            cur = Vec::new();
        } else {
            cur.push(c);
        }
        i = i + 1;
    }
    if cur.len() > 0 {
        let ghost before = char_views(acc@);
        acc.push(cur);
        assert(char_views(acc@) == before.push(acc@.last()@));
    }
    acc
}

pub open spec fn is_digit(c: char) -> bool {
    '0' <= c && c <= '9'
}

/// The value of a string of decimal digits.
pub open spec fn digits_value(d: Seq<char>) -> nat
    decreases d.len(),
{
    if d.len() == 0 {
        0
    } else {
        digits_value(d.drop_last()) * 10 + ((d.last() as u32) - ('0' as u32)) as nat
    }
}

/// One or more decimal digits.
pub open spec fn decimal(d: Seq<char>) -> bool {
    d.len() > 0 && forall|i: int| 0 <= i < d.len() ==> is_digit(#[trigger] d[i])
}

/// The digits of an unsigned number: the text without one leading `+`.
pub open spec fn unsigned_digits(t: Seq<char>) -> Seq<char> {
    if t.len() > 0 && t[0] == '+' {
        t.drop_first()
    } else {
        t
    }
}

/// The number that Rust's `usize::from_str` reads from `t`, if it reads one.
pub open spec fn spec_parse_usize(t: Seq<char>) -> Option<usize> {
    let d = unsigned_digits(t);
    if decimal(d) && digits_value(d) <= usize::MAX {
        Some(digits_value(d) as usize)
    } else {
        None
    }
}

/// The number that Rust's `u32::from_str` reads from `t`, if it reads one.
pub open spec fn spec_parse_u32(t: Seq<char>) -> Option<u32> {
    let d = unsigned_digits(t);
    if decimal(d) && digits_value(d) <= u32::MAX {
        Some(digits_value(d) as u32)
    } else {
        None
    }
}

/// The number that Rust's `i32::from_str` reads from `t`, if it reads one.
pub open spec fn spec_parse_i32(t: Seq<char>) -> Option<i32> {
    if t.len() > 0 && t[0] == '-' {
        let d = t.drop_first();
        if decimal(d) && digits_value(d) <= 0x8000_0000 {
            Some((0 - digits_value(d)) as i32)
        } else {
            None
        }
    } else {
        let d = unsigned_digits(t);
        if decimal(d) && digits_value(d) <= i32::MAX {
            Some(digits_value(d) as i32)
        } else {
            None
        }
    }
}

proof fn lemma_digits_value_prefix(d: Seq<char>, k: int)
    requires
        0 <= k <= d.len(),
    ensures
        digits_value(d.take(k)) <= digits_value(d),
    decreases d.len() - k,
{
    if k < d.len() {
        lemma_digits_value_prefix(d, k + 1);
        assert(d.take(k + 1).drop_last() == d.take(k));
    } else {
        assert(d.take(k) == d);
    }
}

/// The value of the digits `d` when they are one or more decimal digits
/// worth at most `limit`.
fn digits_upto(d: &Vec<char>, limit: u64) -> (r: Option<u64>)
    ensures
        r matches Some(v) ==> decimal(d@) && v == digits_value(d@) && v <= limit,
        r is None ==> !decimal(d@) || digits_value(d@) > limit,
{
    if d.len() == 0 {
        return None;
    }
    let mut v: u64 = 0;
    let mut i: usize = 0;
    while i < d.len()
        invariant
            i <= d@.len(),
            v == digits_value(d@.take(i as int)),
            v <= limit,
            forall|j: int| 0 <= j < i ==> is_digit(#[trigger] d@[j]),
        decreases d@.len() - i,
    {
        let c = d[i];
        if !('0' <= c && c <= '9') {
            return None;
        }
        assert(d@.take(i + 1).drop_last() == d@.take(i as int));
        let next: u128 = (v as u128) * 10 + ((c as u32) - ('0' as u32)) as u128;
        if next > limit as u128 {
            proof {
                lemma_digits_value_prefix(d@, i + 1);
            }
            return None;
        }
        v = next as u64;
        i = i + 1;
    }
    assert(d@.take(d@.len() as int) == d@);
    Some(v)
}

/// `t` without its first character.
fn tail(t: &Vec<char>) -> (r: Vec<char>)
    requires
        t@.len() > 0,
    ensures
        r@ == t@.drop_first(),
{
    let mut r: Vec<char> = Vec::new();
    let mut i: usize = 1;
    while i < t.len()
        invariant
            1 <= i <= t@.len(),
            r@ == t@.subrange(1, i as int),
        decreases t@.len() - i,
    {
        r.push(t[i]);
        i = i + 1;
    }
    r
}

/// The digits of an unsigned number in `t`.
fn unsigned_part(t: &Vec<char>) -> (r: Vec<char>)
    ensures
        r@ == unsigned_digits(t@),
{
    if t.len() > 0 && t[0] == '+' {
        tail(t)
    } else {
        let mut r: Vec<char> = Vec::new();
        let mut i: usize = 0;
        while i < t.len()
            invariant
                i <= t@.len(),
                r@ == t@.take(i as int),
            decreases t@.len() - i,
        {
            r.push(t[i]);
            i = i + 1;
        }
        assert(t@.take(t@.len() as int) == t@);
        r
    }
}

/// Reads a `usize` as `usize::from_str` does.
pub fn parse_usize(t: &Vec<char>) -> (r: Option<usize>)
    ensures
        r == spec_parse_usize(t@),
{
    let d = unsigned_part(t);
    match digits_upto(&d, usize::MAX as u64) {
        Some(v) => Some(v as usize),
        None => None,
    }
}

/// Reads a `u32` as `u32::from_str` does.
pub fn parse_u32(t: &Vec<char>) -> (r: Option<u32>)
    ensures
        r == spec_parse_u32(t@),
{
    let d = unsigned_part(t);
    match digits_upto(&d, u32::MAX as u64) {
        Some(v) => Some(v as u32),
        None => None,
    }
}

/// Reads an `i32` as `i32::from_str` does.
pub fn parse_i32(t: &Vec<char>) -> (r: Option<i32>)
    ensures
        r == spec_parse_i32(t@),
{
    if t.len() > 0 && t[0] == '-' {
        let d = tail(t);
        match digits_upto(&d, 0x8000_0000u64) {
            Some(v) => Some((0i64 - v as i64) as i32),
            None => None,
        }
    } else {
        let d = unsigned_part(t);
        match digits_upto(&d, i32::MAX as u64) {
            Some(v) => Some(v as i32),
            None => None,
        }
    }
}

/// The decimal digits of `n`.
pub open spec fn dec_nat(n: nat) -> Seq<char>
    decreases n,
{
    if n < 10 {
        seq![(48 + n) as char]
    } else {
        dec_nat(n / 10).push((48 + n % 10) as char)
    }
}

/// The decimal digits of a number are a non-empty run of digits.
pub proof fn lemma_dec_nat_digits(n: nat)
    ensures
        dec_nat(n).len() > 0,
        forall|k: int| 0 <= k < dec_nat(n).len() ==> '0' <= #[trigger] dec_nat(n)[k] <= '9',
    decreases n,
{
    if n >= 10 {
        lemma_dec_nat_digits(n / 10);
        assert forall|k: int| 0 <= k < dec_nat(n).len() implies '0' <= #[trigger] dec_nat(n)[k] <= '9' by {
            if k < dec_nat(n / 10).len() {
                assert(dec_nat(n)[k] == dec_nat(n / 10)[k]);
            }
        }
    }
}

/// Scanning over a word that holds no white space adds it to the current word.
proof fn lemma_scan_word(s: Seq<char>, i: nat, w: Seq<char>, cur: Seq<char>, acc: Seq<Seq<char>>)
    requires
        i + w.len() <= s.len(),
        s.subrange(i as int, (i + w.len()) as int) == w,
        forall|k: int| 0 <= k < w.len() ==> !is_ascii_ws(#[trigger] w[k]),
    ensures
        tokens_scan(s, i, cur, acc) == tokens_scan(s, i + w.len(), cur + w, acc),
    decreases w.len(),
{
    if w.len() == 0 {
        assert(cur + w == cur);
    } else {
        assert(s[i as int] == w[0]);
        assert(!is_ascii_ws(w[0]));
        let w2 = w.drop_first();
        assert(s.subrange((i + 1) as int, (i + 1 + w2.len()) as int) == w2);
        assert forall|k: int| 0 <= k < w2.len() implies !is_ascii_ws(#[trigger] w2[k]) by {
            assert(w2[k] == w[k + 1]);
        }
        lemma_scan_word(s, i + 1, w2, cur.push(w[0]), acc);
        assert(cur.push(w[0]) + w2 == cur + w);
    }
}

/// The words of four words without white space joined by single spaces
/// are those four words.
pub proof fn lemma_tokens_of_four(x: Seq<char>, y: Seq<char>, z: Seq<char>, v: Seq<char>)
    requires
        x.len() > 0,
        y.len() > 0,
        z.len() > 0,
        v.len() > 0,
        forall|k: int| 0 <= k < x.len() ==> !is_ascii_ws(#[trigger] x[k]),
        forall|k: int| 0 <= k < y.len() ==> !is_ascii_ws(#[trigger] y[k]),
        forall|k: int| 0 <= k < z.len() ==> !is_ascii_ws(#[trigger] z[k]),
        forall|k: int| 0 <= k < v.len() ==> !is_ascii_ws(#[trigger] v[k]),
    ensures
        tokens(x + seq![' '] + y + seq![' '] + z + seq![' '] + v) == seq![x, y, z, v],
{
    let s = x + seq![' '] + y + seq![' '] + z + seq![' '] + v;
    let e = Seq::<char>::empty();
    let i1: int = x.len() as int;
    let i2: int = i1 + 1 + y.len();
    let i3: int = i2 + 1 + z.len();
    assert(s.subrange(0, i1) == x);
    lemma_scan_word(s, 0, x, e, seq![]);
    assert(e + x == x);
    assert(s[i1] == ' ');
    assert(s.subrange(i1 + 1, i1 + 1 + y.len()) == y);
    lemma_scan_word(s, (i1 + 1) as nat, y, e, seq![x]);
    assert(e + y == y);
    assert(s[i2] == ' ');
    assert(s.subrange(i2 + 1, i2 + 1 + z.len()) == z);
    lemma_scan_word(s, (i2 + 1) as nat, z, e, seq![x, y]);
    assert(e + z == z);
    assert(s[i3] == ' ');
    assert(s.subrange(i3 + 1, i3 + 1 + v.len()) == v);
    lemma_scan_word(s, (i3 + 1) as nat, v, e, seq![x, y, z]);
    assert(e + v == v);
    assert(seq![x].push(y) == seq![x, y]);
    assert(seq![x, y].push(z) == seq![x, y, z]);
    assert(seq![x, y, z].push(v) == seq![x, y, z, v]);
}

/// `v` written in decimal, with a leading `-` when negative.
pub open spec fn dec_int(v: int) -> Seq<char> {
    if v < 0 {
        seq!['-'] + dec_nat((0 - v) as nat)
    } else {
        dec_nat(v as nat)
    }
}

fn push_digits(out: &mut Vec<char>, n: u64)
    ensures
        final(out)@ == old(out)@ + dec_nat(n as nat),
    decreases n,
{
    if n >= 10 {
        push_digits(out, n / 10);
    }
    let d = (n % 10) as u8;
    out.push((48u8 + d) as char);
}

/// Appends `v` written in decimal.
pub fn push_decimal(out: &mut Vec<char>, v: i64)
    ensures
        final(out)@ == old(out)@ + dec_int(v as int),
{
    if v < 0 {
        out.push('-');
        let m: u64 = (0i128 - v as i128) as u64;
        let ghost mid = out@;
        push_digits(out, m);
        assert(out@ == old(out)@ + (seq!['-'] + dec_nat(m as nat)));
    } else {
        push_digits(out, v as u64);
    }
}

/// Appends the characters of `s`.
pub fn push_str(out: &mut Vec<char>, s: &str)
    ensures
        final(out)@ == old(out)@ + s@,
{
    let cs = chars_of(s);
    let mut i: usize = 0;
    while i < cs.len()
        invariant
            i <= cs@.len(),
            cs@ == s@,
            out@ == old(out)@ + cs@.take(i as int),
        decreases cs@.len() - i,
    {
        out.push(cs[i]);
        i = i + 1;
    }
    assert(cs@.take(cs@.len() as int) == cs@);
}

} // verus!
