//! Splitting text into lines and words, lower-casing and reading integers.
use vstd::prelude::*;

verus! {

/// The whitespace characters: ASCII tab, line feed, vertical tab, form feed,
/// carriage return and space, and the Unicode space, line and paragraph
/// separators.
pub open spec fn is_ws(c: char) -> bool {
    ||| c == '\t'
    ||| c == '\n'
    ||| c == '\x0B'
    ||| c == '\x0C'
    ||| c == '\r'
    ||| c == ' '
    ||| c == '\u{A0}'
    ||| c == '\u{1680}'
    ||| c == '\u{180E}'
    ||| ('\u{2000}' <= c && c <= '\u{200A}')
    ||| c == '\u{2028}'
    ||| c == '\u{2029}'
    ||| c == '\u{202F}'
    ||| c == '\u{205F}'
    ||| c == '\u{3000}'
}

pub fn is_whitespace(c: char) -> (b: bool)
    ensures
        b == is_ws(c),
{
    c == '\t' || c == '\n' || c == '\x0B' || c == '\x0C' || c == '\r' || c == ' ' || c == '\u{A0}'
        || c == '\u{1680}' || c == '\u{180E}' || ('\u{2000}' <= c && c <= '\u{200A}') || c
        == '\u{2028}' || c == '\u{2029}' || c == '\u{202F}' || c == '\u{205F}' || c == '\u{3000}'
}

/// The words of `l` from index `i` on, given the word `cur` read so far and
/// the words `acc` before it.
pub open spec fn words_from(l: Seq<char>, i: int, cur: Seq<char>, acc: Seq<Seq<char>>) -> Seq<
    Seq<char>,
>
    decreases l.len() - i,
{
    if i >= l.len() {
        if cur.len() > 0 {
            acc.push(cur)
        } else {
            acc
        }
    } else if is_ws(l[i]) {
        words_from(
            l,
            i + 1,
            Seq::empty(),
            if cur.len() > 0 {
                acc.push(cur)
            } else {
                acc
            },
        )
    } else {
        words_from(l, i + 1, cur.push(l[i]), acc)
    }
}

/// The non-empty runs of non-whitespace characters of `l`, in order.
pub open spec fn words(l: Seq<char>) -> Seq<Seq<char>> {
    words_from(l, 0, Seq::empty(), Seq::empty())
}

/// Splits a line into its words.
pub fn split_words(l: &Vec<char>) -> (r: Vec<Vec<char>>)
    ensures
        Seq::new(r@.len(), |i: int| r@[i]@) == words(l@),
        forall|i: int| 0 <= i < r@.len() ==> (#[trigger] r@[i])@.len() > 0,
{
    let n = l.len();
    let mut acc: Vec<Vec<char>> = Vec::new();
    let mut cur: Vec<char> = Vec::new();
    let mut i: usize = 0;
    assert(Seq::new(acc@.len(), |j: int| acc@[j]@) =~= Seq::<Seq<char>>::empty());
    assert(cur@ =~= Seq::<char>::empty());
    while i < n
        invariant
            n == l@.len(),
            i <= n,
            words(l@) == words_from(l@, i as int, cur@, Seq::new(acc@.len(), |j: int| acc@[j]@)),
            forall|j: int| 0 <= j < acc@.len() ==> (#[trigger] acc@[j])@.len() > 0,
        decreases n - i,
    {
        let c = l[i];
        let ghost av = Seq::new(acc@.len(), |j: int| acc@[j]@);
        let ghost cv = cur@;
        if is_whitespace(c) {
            if cur.len() > 0 {
                let mut w: Vec<char> = Vec::new();
                std::mem::swap(&mut w, &mut cur);
                acc.push(w);
                assert(Seq::new(acc@.len(), |j: int| acc@[j]@) =~= av.push(cv));
            }
            assert(cur@ =~= Seq::<char>::empty());
        } else {
            cur.push(c);
        }
        i = i + 1;
    }
    if cur.len() > 0 {
        let ghost av = Seq::new(acc@.len(), |j: int| acc@[j]@);
        let ghost cv = cur@;
        acc.push(cur);
        assert(Seq::new(acc@.len(), |j: int| acc@[j]@) =~= av.push(cv));
    }
    acc
}

/// The lines of a text: the runs of characters between line feeds, without
/// the line feeds; a last empty line after a final line feed does not count.
pub open spec fn lines_from(s: Seq<char>, i: int, cur: Seq<char>, acc: Seq<Seq<char>>) -> Seq<
    Seq<char>,
>
    decreases s.len() - i,
{
    if i >= s.len() {
        if cur.len() > 0 {
            acc.push(cur)
        } else {
            acc
        }
    } else if s[i] == '\n' {
        lines_from(s, i + 1, Seq::empty(), acc.push(cur))
    } else {
        lines_from(s, i + 1, cur.push(s[i]), acc)
    }
}

pub open spec fn split_lines_spec(s: Seq<char>) -> Seq<Seq<char>> {
    lines_from(s, 0, Seq::empty(), Seq::empty())
}

/// Splits a text into its lines.
pub fn split_lines(s: &Vec<char>) -> (r: Vec<Vec<char>>)
    ensures
        Seq::new(r@.len(), |i: int| r@[i]@) == split_lines_spec(s@),
{
    let n = s.len();
    let mut acc: Vec<Vec<char>> = Vec::new();
    let mut cur: Vec<char> = Vec::new();
    let mut i: usize = 0;
    assert(Seq::new(acc@.len(), |j: int| acc@[j]@) =~= Seq::<Seq<char>>::empty());
    assert(cur@ =~= Seq::<char>::empty());
    while i < n
        invariant
            n == s@.len(),
            i <= n,
            split_lines_spec(s@) == lines_from(
                s@,
                i as int,
                cur@,
                Seq::new(acc@.len(), |j: int| acc@[j]@),
            ),
        decreases n - i,
    {
        let c = s[i];
        let ghost av = Seq::new(acc@.len(), |j: int| acc@[j]@);
        let ghost cv = cur@;
        if c == '\n' {
            let mut w: Vec<char> = Vec::new();
            std::mem::swap(&mut w, &mut cur);
            acc.push(w);
            assert(Seq::new(acc@.len(), |j: int| acc@[j]@) =~= av.push(cv));
            assert(cur@ =~= Seq::<char>::empty());
        } else {
            cur.push(c);
        }
        i = i + 1;
    }
    if cur.len() > 0 {
        let ghost av = Seq::new(acc@.len(), |j: int| acc@[j]@);
        let ghost cv = cur@;
        acc.push(cur);
        assert(Seq::new(acc@.len(), |j: int| acc@[j]@) =~= av.push(cv));
    }
    acc
}

/// ASCII lower case.
pub open spec fn lower_char(c: char) -> char {
    if 'A' <= c && c <= 'Z' {
        ((c as int) + 32) as char
    } else {
        c
    }
}

pub open spec fn lower(w: Seq<char>) -> Seq<char> {
    Seq::new(w.len(), |i: int| lower_char(w[i]))
}

/// Whether the word, in ASCII lower case, is `lit`.
pub fn lower_eq(w: &Vec<char>, lit: &[char]) -> (b: bool)
    ensures
        b == (lower(w@) == lit@),
{
    if w.len() != lit.len() {
        assert(lower(w@).len() != lit@.len());
        return false;
    }
    let n = w.len();
    let mut i: usize = 0;
    while i < n
        invariant
            n == w@.len() == lit@.len(),
            i <= n,
            forall|j: int| 0 <= j < i ==> lower_char(w@[j]) == lit@[j],
        decreases n - i,
    {
        let c = w[i];
        let lc = if 'A' <= c && c <= 'Z' {
            ((c as u32) + 32) as u8 as char
        } else {
            c
        };
        if lc != lit[i] {
            assert(lower(w@)[i as int] != lit@[i as int]);
            return false;
        }
        i = i + 1;
    }
    assert(lower(w@) =~= lit@);
    true
}

/// Whether the word is `lit`.
pub fn word_eq(w: &Vec<char>, lit: &[char]) -> (b: bool)
    ensures
        b == (w@ == lit@),
{
    if w.len() != lit.len() {
        return false;
    }
    let n = w.len();
    let mut i: usize = 0;
    while i < n
        invariant
            n == w@.len() == lit@.len(),
            i <= n,
            forall|j: int| 0 <= j < i ==> w@[j] == lit@[j],
        decreases n - i,
    {
        if w[i] != lit[i] {
            return false;
        }
        i = i + 1;
    }
    assert(w@ =~= lit@);
    true
}

pub open spec fn is_digit(c: char) -> bool {
    '0' <= c && c <= '9'
}

pub open spec fn all_digits(w: Seq<char>) -> bool {
    forall|i: int| 0 <= i < w.len() ==> is_digit(#[trigger] w[i])
}

/// The value of a string of decimal digits.
pub open spec fn digits_val(w: Seq<char>) -> int
    decreases w.len(),
{
    if w.len() == 0 {
        0
    } else {
        digits_val(w.drop_last()) * 10 + (w.last() as int - 48)
    }
}

/// The integer that a word spells: decimal digits after an optional minus
/// sign.
pub open spec fn int_of_word(w: Seq<char>) -> Option<int> {
    if w.len() > 0 && w[0] == '-' {
        let r = w.drop_first();
        if r.len() > 0 && all_digits(r) {
            Some(-digits_val(r))
        } else {
            None
        }
    } else if w.len() > 0 && all_digits(w) {
        Some(digits_val(w))
    } else {
        None
    }
}

/// `x` as a 32-bit unsigned integer, wrapping around.
pub open spec fn wrap_u32(x: int) -> u32 {
    (x % 0x1_0000_0000) as u32
}

/// `x` as a 16-bit signed integer, wrapping around.
pub open spec fn wrap_i16(x: int) -> i16 {
    let r = x % 0x1_0000;
    if r >= 0x8000 {
        (r - 0x1_0000) as i16
    } else {
        r as i16
    }
}

/// Reads a word as an integer; gives it modulo 2^32.
pub fn int_from_word(w: &Vec<char>) -> (r: Option<u32>)
    ensures
        r is Some <==> int_of_word(w@) is Some,
        r matches Some(x) ==> x == wrap_u32(int_of_word(w@)->0),
{
    let n = w.len();
    if n == 0 {
        return None;
    }
    let neg = w[0] == '-';
    let start: usize = if neg {
        1
    } else {
        0
    };
    if start >= n {
        return None;
    }
    let ghost d = w@.subrange(start as int, n as int);
    assert(neg ==> d =~= w@.drop_first());
    assert(!neg ==> d =~= w@);
    let mut acc: u32 = 0;
    let mut i: usize = start;
    while i < n
        invariant
            n == w@.len(),
            n > 0,
            neg == (w@[0] == '-'),
            neg ==> d == w@.drop_first() && start == 1,
            !neg ==> d == w@ && start == 0,
            start <= i <= n,
            d == w@.subrange(start as int, n as int),
            all_digits(d.take(i - start)),
            acc == digits_val(d.take(i - start)) % 0x1_0000_0000,
        decreases n - i,
    {
        let c = w[i];
        if !('0' <= c && c <= '9') {
            assert(d[i - start] == c);
            assert(!all_digits(d));
            return None;
        }
        let dv: u32 = (c as u32 - 48) as u32;
        let ghost pre = d.take(i - start);
        assert(d.take(i - start + 1).drop_last() =~= pre);
        assert(d.take(i - start + 1).last() == c);
        assert(all_digits(d.take(i - start + 1)));
        let ghost dd = digits_val(pre);
        proof {
            vstd::arithmetic::div_mod::lemma_mul_mod_noop_left(dd, 10, 0x1_0000_0000);
            vstd::arithmetic::div_mod::lemma_add_mod_noop(dd * 10, dv as int, 0x1_0000_0000);
        }
        let m = acc.wrapping_mul(10);
        assert(m == (acc as int * 10) % 0x1_0000_0000);
        acc = m.wrapping_add(dv);
        assert(acc == (m as int + dv as int) % 0x1_0000_0000);
        i = i + 1;
    }
    assert(d.take(n - start) =~= d);
    if neg {
        proof {
            vstd::arithmetic::div_mod::lemma_sub_mod_noop(0, digits_val(d), 0x1_0000_0000);
        }
        Some(0u32.wrapping_sub(acc))
    } else {
        Some(acc)
    }
}

/// One less than `x`, as a 16-bit signed integer, wrapping around.
pub fn coord_below(x: u32) -> (r: i16)
    ensures
        r == wrap_i16(x - 1),
{
    let t = x.wrapping_sub(1);
    assert(t == (x - 1) % 0x1_0000_0000);
    proof {
        vstd::arithmetic::div_mod::lemma_mod_mod(x - 1, 0x1_0000, 0x1_0000);
    }
    let r = t % 0x1_0000;
    if r >= 0x8000 {
        (r as i32 - 0x1_0000) as i16
    } else {
        r as i16
    }
}

/// Wrapping to 16 bits after wrapping to 32 bits is wrapping to 16 bits.
pub proof fn lemma_wrap_i16_of_u32(v: int)
    ensures
        wrap_i16(wrap_u32(v) - 1) == wrap_i16(v - 1),
{
    let m = 0x1_0000_0000int;
    vstd::arithmetic::div_mod::lemma_sub_mod_noop(v, 1, m);
    vstd::arithmetic::div_mod::lemma_mod_mod(v % m - 1, 0x1_0000, 0x1_0000);
    vstd::arithmetic::div_mod::lemma_mod_mod(v - 1, 0x1_0000, 0x1_0000);
}

} // verus!
